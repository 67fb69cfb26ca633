use fbmx_runtime::{Arithmetic, Direction, FbmxError, PerformerRuntime, GATES};

#[derive(Debug, Clone, Copy, PartialEq)]
struct Value(f32);

impl Arithmetic for Value {
    fn number(n: u32) -> Self {
        Value(n as f32)
    }
    fn plus(self, rhs: Self) -> Self {
        Value(self.0 + rhs.0)
    }
    fn minus(self, rhs: Self) -> Self {
        Value(self.0 - rhs.0)
    }
    fn times(self, rhs: Self) -> Self {
        Value(self.0 * rhs.0)
    }
    fn over(self, rhs: Self) -> Self {
        Value(self.0 / rhs.0)
    }
    fn negated(self) -> Self {
        Value(-self.0)
    }
    fn exp(self) -> Self {
        Value(self.0.exp())
    }
    fn tanh(self) -> Self {
        Value(self.0.tanh())
    }
}

fn values(numbers: &[f32]) -> Vec<Value> {
    numbers.iter().map(|n| Value(*n)).collect()
}

fn numbers(values: Vec<Value>) -> Vec<f32> {
    values.iter().map(|v| v.0).collect()
}

/// With all weights zero and all biases zero the gates are
/// `r = z = sigmoid(0) = 0.5` and `n = tanh(0) = 0`, so
/// `h' = (1 - 0.5) * 0 + 0.5 * 0 = 0`. Give the new gate an input bias of
/// `a` and it becomes `h' = 0.5 * tanh(a)`.
#[test]
fn one_gru_step_matches_the_definition() {
    let hidden = 1;
    let input = 1;
    let mut runtime = PerformerRuntime {
        input_size: input,
        hidden_size: hidden,
        output_size: 1,
        bidirectional: false,
        forward: Direction {
            weight_ih: vec![Value(0.0); GATES * hidden * input],
            weight_hh: vec![Value(0.0); GATES * hidden * hidden],
            bias_ih: values(&[0.0, 0.0, 0.75]),
            bias_hh: vec![Value(0.0); GATES * hidden],
        },
        backward: None,
        head_weights: vec![values(&[1.0])],
        head_biases: values(&[0.0]),
        input_mean: values(&[0.0]),
        input_std: values(&[1.0]),
    };

    let out = numbers(runtime.run(&values(&[0.0])).expect("one note"));
    let expected = 0.5 * 0.75_f32.tanh();
    assert!(
        (out[0] - expected).abs() < 1e-6,
        "got {}, expected {expected}",
        out[0]
    );

    // Second step: the hidden state now carries `expected`, and with zero
    // recurrent weights the update gate blends it against the same new
    // candidate: h'' = 0.5 * tanh(0.75) + 0.5 * h'.
    let out = numbers(runtime.run(&values(&[0.0, 0.0])).expect("two notes"));
    let second = 0.5 * 0.75_f32.tanh() + 0.5 * expected;
    assert!(
        (out[1] - second).abs() < 1e-6,
        "got {}, expected {second}",
        out[1]
    );

    // Normalisation is applied, not ignored.
    runtime.input_mean = values(&[1.0]);
    runtime.input_std = values(&[2.0]);
    let normalized = numbers(runtime.run(&values(&[1.0])).expect("one note"));
    assert!(
        (normalized[0] - expected).abs() < 1e-6,
        "an input equal to the mean must behave like a zero input"
    );
}

fn echo(bias: f32) -> Direction<Value> {
    let hidden = 1;
    Direction {
        weight_ih: values(&[0.0, 0.0, 1.0]),
        weight_hh: vec![Value(0.0); GATES * hidden * hidden],
        bias_ih: values(&[0.0, 0.0, bias]),
        bias_hh: vec![Value(0.0); GATES * hidden],
    }
}

fn backward_reader() -> PerformerRuntime<Value> {
    PerformerRuntime {
        input_size: 1,
        hidden_size: 1,
        output_size: 1,
        bidirectional: true,
        forward: echo(0.0),
        backward: Some(echo(0.0)),
        // Read only the backward half of the trunk.
        head_weights: vec![values(&[0.0, 1.0])],
        head_biases: values(&[0.0]),
        input_mean: values(&[0.0]),
        input_std: values(&[1.0]),
    }
}

fn forward_reader() -> PerformerRuntime<Value> {
    PerformerRuntime {
        bidirectional: false,
        backward: None,
        head_weights: vec![values(&[1.0])],
        ..backward_reader()
    }
}

/// The backward direction has to read the sequence in reverse and land its
/// state on the right note. A one-note sequence cannot tell the two apart,
/// so this uses two and checks that reversing the input reverses which
/// note carries the accumulated state.
#[test]
fn the_backward_direction_reads_the_sequence_in_reverse() {
    let runtime = backward_reader();

    // Backward starts at the last note, so note 1 sees only itself while
    // note 0 sees note 1 first and then itself.
    let out = numbers(runtime.run(&values(&[0.0, 2.0])).expect("two notes"));
    let last = 0.5 * 2.0_f32.tanh();
    assert!(
        (out[1] - last).abs() < 1e-6,
        "the final note must be the backward pass's first step, got {}",
        out[1]
    );
    assert!(
        out[0].abs() > 1e-6,
        "the first note must carry state accumulated from the last"
    );
    assert!((out[0] - 0.5 * last).abs() < 1e-6);
}

#[test]
fn a_note_buffer_that_is_not_a_whole_number_of_notes_is_rejected() {
    let runtime = PerformerRuntime {
        input_size: 3,
        hidden_size: 1,
        output_size: 1,
        bidirectional: false,
        forward: Direction {
            weight_ih: vec![Value(0.0); 3 * 3],
            weight_hh: vec![Value(0.0); 3],
            bias_ih: vec![Value(0.0); 3],
            bias_hh: vec![Value(0.0); 3],
        },
        backward: None,
        head_weights: vec![values(&[1.0])],
        head_biases: values(&[0.0]),
        input_mean: vec![Value(0.0); 3],
        input_std: vec![Value(1.0); 3],
    };
    assert!(runtime.run(&values(&[0.0, 0.0])).is_err());
    assert!(runtime.run(&[]).expect("empty is fine").is_empty());
    match runtime.run(&values(&[0.0, 0.0])) {
        Err(FbmxError::UnsupportedArchitecture(message)) => assert_eq!(
            message,
            "note buffer of 2 values is not a multiple of the 3 input features"
        ),
        other => panic!("unexpected {:?}", other),
    }
}

#[test]
fn a_model_without_input_features_rejects_every_buffer() {
    let runtime = PerformerRuntime {
        input_size: 0,
        forward: Direction {
            weight_ih: vec![],
            ..echo(0.0)
        },
        input_mean: vec![],
        input_std: vec![],
        ..forward_reader()
    };
    for notes in [vec![], values(&[1.0])] {
        match runtime.run(&notes) {
            Err(FbmxError::UnsupportedArchitecture(message)) => assert_eq!(
                message,
                format!(
                    "note buffer of {} values is not a multiple of the 0 input features",
                    notes.len()
                )
            ),
            other => panic!("unexpected {:?}", other),
        }
    }
}

#[test]
fn the_backward_pass_mirrors_the_forward_pass() {
    let score = [0.25, -1.0, 2.0, 0.5];
    let mut reversed = score;
    reversed.reverse();
    let backward = numbers(backward_reader().run(&values(&score)).expect("four notes"));
    let mut forward = numbers(forward_reader().run(&values(&reversed)).expect("four notes"));
    forward.reverse();
    assert_eq!(backward, forward);
}

#[test]
fn the_first_notes_do_not_depend_on_the_later_ones() {
    let runtime = forward_reader();
    let all = numbers(runtime.run(&values(&[0.25, -1.0, 2.0])).expect("three notes"));
    let few = numbers(runtime.run(&values(&[0.25, -1.0])).expect("two notes"));
    assert_eq!(&all[..2], &few[..]);
}

#[test]
fn the_backward_state_of_the_last_notes_does_not_depend_on_the_earlier_ones() {
    let runtime = backward_reader();
    let all = numbers(runtime.run(&values(&[0.25, -1.0, 2.0])).expect("three notes"));
    let few = numbers(runtime.run(&values(&[-1.0, 2.0])).expect("two notes"));
    assert_eq!(&all[1..], &few[..]);
}

#[test]
fn a_single_note_is_read_alike_in_both_directions() {
    let note = values(&[1.5]);
    assert_eq!(
        numbers(backward_reader().run(&note).expect("one note")),
        numbers(forward_reader().run(&note).expect("one note"))
    );
}

#[test]
fn a_run_keeps_nothing_for_the_next() {
    let runtime = backward_reader();
    let notes = values(&[0.25, -1.0, 2.0]);
    let once = numbers(runtime.run(&notes).expect("three notes"));
    let again = numbers(runtime.run(&notes).expect("three notes"));
    assert_eq!(once, again);
}

/// Distinct weights on every path, against the recurrence written out.
#[test]
fn every_gate_and_head_reads_its_own_weights() {
    let runtime = PerformerRuntime {
        input_size: 2,
        hidden_size: 2,
        output_size: 3,
        bidirectional: false,
        forward: Direction {
            weight_ih: values(&[
                0.1, -0.2, 0.3, 0.4, -0.5, 0.6, 0.7, 0.8, -0.9, 1.0, 0.15, -0.25,
            ]),
            weight_hh: values(&[
                0.2, 0.1, -0.3, 0.5, 0.4, -0.6, 0.9, 0.7, 0.35, -0.45, 0.55, 0.65,
            ]),
            bias_ih: values(&[0.01, 0.02, 0.03, 0.04, 0.05, 0.06]),
            bias_hh: values(&[0.06, 0.05, 0.04, 0.03, 0.02, 0.01]),
        },
        backward: None,
        head_weights: vec![
            values(&[1.0, 0.0]),
            values(&[0.0, 1.0]),
            values(&[2.0, -3.0]),
        ],
        head_biases: values(&[0.0, 0.0, 0.5]),
        input_mean: values(&[1.0, 2.0]),
        input_std: values(&[2.0, 4.0]),
    };
    let notes = [[2.0_f32, 4.0], [0.0, -2.0]];
    let w_ih = [
        [0.1, -0.2],
        [0.3, 0.4],
        [-0.5, 0.6],
        [0.7, 0.8],
        [-0.9, 1.0],
        [0.15, -0.25_f32],
    ];
    let w_hh = [
        [0.2, 0.1],
        [-0.3, 0.5],
        [0.4, -0.6],
        [0.9, 0.7],
        [0.35, -0.45],
        [0.55, 0.65_f32],
    ];
    let b_ih = [0.01, 0.02, 0.03, 0.04, 0.05, 0.06_f32];
    let b_hh = [0.06, 0.05, 0.04, 0.03, 0.02, 0.01_f32];
    let sigmoid = |x: f32| 1.0 / (1.0 + (-x).exp());

    let out = numbers(
        runtime
            .run(&values(&[notes[0][0], notes[0][1], notes[1][0], notes[1][1]]))
            .expect("two notes"),
    );
    assert_eq!(out.len(), 6);
    let mut h = [0.0_f32; 2];
    for (i, note) in notes.iter().enumerate() {
        let x = [(note[0] - 1.0) / 2.0, (note[1] - 2.0) / 4.0];
        let gi: Vec<f32> = (0..6)
            .map(|g| b_ih[g] + w_ih[g][0] * x[0] + w_ih[g][1] * x[1])
            .collect();
        let gh: Vec<f32> = (0..6)
            .map(|g| b_hh[g] + w_hh[g][0] * h[0] + w_hh[g][1] * h[1])
            .collect();
        for u in 0..2 {
            let r = sigmoid(gi[u] + gh[u]);
            let z = sigmoid(gi[2 + u] + gh[2 + u]);
            let n = (gi[4 + u] + r * gh[4 + u]).tanh();
            h[u] = (1.0 - z) * n + z * h[u];
        }
        assert_eq!(out[3 * i], h[0]);
        assert_eq!(out[3 * i + 1], h[1]);
        assert!((out[3 * i + 2] - (0.5 + 2.0 * h[0] - 3.0 * h[1])).abs() < 1e-6);
    }
}

#[test]
fn getters_report_the_sizes() {
    let runtime = backward_reader();
    assert_eq!(runtime.input_size(), 1);
    assert_eq!(runtime.output_size(), 1);
    assert!(runtime.is_bidirectional());
    assert!(!forward_reader().is_bidirectional());
}

fn two_units() -> PerformerRuntime<Value> {
    let direction = |shift: f32| Direction {
        weight_ih: values(&[0.1, -0.2, 0.3, 0.4, -0.5, 0.6]),
        weight_hh: values(&[
            0.2, 0.1, -0.3, 0.5, 0.4, -0.6, 0.9, 0.7, 0.35, -0.45, 0.55, 0.65,
        ]),
        bias_ih: values(&[0.01, 0.02, 0.03, 0.04, 0.05, 0.06 + shift]),
        bias_hh: values(&[0.06, 0.05, 0.04, 0.03, 0.02, 0.01]),
    };
    PerformerRuntime {
        input_size: 1,
        hidden_size: 2,
        output_size: 3,
        bidirectional: true,
        forward: direction(0.0),
        backward: Some(direction(0.5)),
        head_weights: vec![
            values(&[1.0, 2.0, 3.0, 4.0]),
            values(&[0.5, -0.5, 0.25, -0.25]),
            values(&[-1.0, 0.0, 1.0, 0.0]),
        ],
        head_biases: values(&[0.1, 0.2, 0.3]),
        input_mean: values(&[0.75]),
        input_std: values(&[1.5]),
    }
}

#[test]
fn a_pass_writes_its_slots_and_nothing_else() {
    let runtime = two_units();
    // More notes and more room than are used.
    let score = values(&[0.25, -1.0, 2.0, 9.0]);
    let mut tight = values(&[0.0; 6]);
    runtime.run_direction(&runtime.forward, &score, 3, &mut tight, 0, 2, false);
    let mut wide = values(&[7.0; 20]);
    runtime.run_direction(&runtime.forward, &score, 3, &mut wide, 3, 5, false);
    for (p, value) in wide.iter().enumerate() {
        let (i, k) = ((p as isize - 3) / 5, (p as isize - 3) % 5);
        if (0..3).contains(&i) && (0..2).contains(&k) {
            assert_eq!(*value, tight[(i * 2 + k) as usize]);
        } else {
            assert_eq!(*value, Value(7.0));
        }
    }
    // Slots may reach beyond the row they start in.
    let mut shifted = values(&[7.0; 9]);
    runtime.run_direction(&runtime.forward, &score, 3, &mut shifted, 2, 2, false);
    assert_eq!(&shifted[2..8], &tight[..]);
    assert_eq!((shifted[1], shifted[8]), (Value(7.0), Value(7.0)));
    let mut untouched = values(&[7.0; 2]);
    runtime.run_direction(&runtime.forward, &[], 0, &mut untouched, 100, 2, true);
    assert_eq!(untouched, values(&[7.0; 2]));
}

#[test]
fn reading_in_reverse_writes_the_mirror_image() {
    let runtime = two_units();
    let score = [0.25, -1.0, 2.0];
    let mut reversed = score;
    reversed.reverse();
    let mut a = values(&[0.0; 6]);
    let mut b = values(&[0.0; 6]);
    runtime.run_direction(&runtime.forward, &values(&score), 3, &mut a, 0, 2, true);
    runtime.run_direction(&runtime.forward, &values(&reversed), 3, &mut b, 0, 2, false);
    for i in 0..3 {
        assert_eq!(a[2 * i..2 * i + 2], b[2 * (2 - i)..2 * (2 - i) + 2]);
    }
}

#[test]
fn the_passes_share_a_buffer_in_either_order() {
    let runtime = two_units();
    let backward = runtime.backward.clone().expect("bidirectional");
    let score = values(&[0.25, -1.0, 2.0]);
    let mut a = values(&[7.0; 12]);
    runtime.run_direction(&runtime.forward, &score, 3, &mut a, 0, 4, false);
    let front = a.clone();
    runtime.run_direction(&backward, &score, 3, &mut a, 2, 4, true);
    let mut b = values(&[8.0; 12]);
    runtime.run_direction(&backward, &score, 3, &mut b, 2, 4, true);
    runtime.run_direction(&runtime.forward, &score, 3, &mut b, 0, 4, false);
    assert_eq!(a, b);
    for i in 0..3 {
        assert_eq!(a[4 * i..4 * i + 2], front[4 * i..4 * i + 2]);
        assert_eq!(front[4 * i + 2..4 * i + 4], values(&[7.0, 7.0])[..]);
    }
}

#[test]
fn standardized_notes_need_no_further_scaling() {
    let runtime = two_units();
    let neutral = PerformerRuntime {
        input_mean: values(&[0.0]),
        input_std: values(&[1.0]),
        ..two_units()
    };
    let score = [0.25_f32, -1.0, 2.0];
    let scaled: Vec<f32> = score.iter().map(|v| (v - 0.75) / 1.5).collect();
    assert_eq!(
        numbers(runtime.run(&values(&score)).expect("three notes")),
        numbers(neutral.run(&values(&scaled)).expect("three notes"))
    );
}

#[test]
fn arranging_the_heads_arranges_the_outputs() {
    let runtime = two_units();
    let arrangement = [2, 0, 1];
    let arranged = PerformerRuntime {
        head_weights: arrangement.iter().map(|o| runtime.head_weights[*o].clone()).collect(),
        head_biases: arrangement.iter().map(|o| runtime.head_biases[*o]).collect(),
        ..two_units()
    };
    let score = values(&[0.25, -1.0, 2.0]);
    let a = numbers(runtime.run(&score).expect("three notes"));
    let b = numbers(arranged.run(&score).expect("three notes"));
    assert_eq!(a.len(), b.len());
    for note in 0..3 {
        for (o, p) in arrangement.iter().enumerate() {
            assert_eq!(b[3 * note + o], a[3 * note + p]);
        }
    }
}
