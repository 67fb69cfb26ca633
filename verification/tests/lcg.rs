use fbmx_runtime::{Arithmetic, Lcg};

#[derive(Debug, Clone, Copy, PartialEq)]
struct Value(f32);

impl Arithmetic for Value {
    fn number(n: u32) -> Self {
        Value(n as f32)
    }
    fn plus(self, rhs: Self) -> Self {
        Value(self.0 + rhs.0)
    }
    fn minus(self, rhs: Self) -> Self {
        Value(self.0 - rhs.0)
    }
    fn times(self, rhs: Self) -> Self {
        Value(self.0 * rhs.0)
    }
    fn over(self, rhs: Self) -> Self {
        Value(self.0 / rhs.0)
    }
    fn negated(self) -> Self {
        Value(-self.0)
    }
    fn exp(self) -> Self {
        Value(self.0.exp())
    }
    fn tanh(self) -> Self {
        Value(self.0.tanh())
    }
}

#[test]
fn the_state_follows_the_recurrence() {
    let mut rng = Lcg(7);
    assert_eq!(rng.next_u64(), 9098160460397411210);
    assert_eq!(rng.next_u64(), 17628806926561717905);
    assert_eq!(rng.0, 17628806926561717905);
    assert_eq!(Lcg(0).next_u64(), 1442695040888963407);
    assert_eq!(Lcg(u64::MAX).next_u64(), 13525302890751722018);
}

#[test]
fn the_top_bits_are_taken() {
    let mut rng = Lcg(7);
    assert_eq!(rng.next_bits(), 8274728);
    assert_eq!(rng.next_bits(), 16033306);
}

#[test]
fn numbers_lie_between_minus_one_and_one() {
    let mut rng = Lcg(7);
    assert_eq!(rng.next_f32::<Value>(), Value(-0.013575553894042969));
    assert_eq!(rng.next_f32::<Value>(), Value(0.9113190174102783));
    for _ in 0..1000 {
        let Value(x) = rng.next_f32::<Value>();
        assert!((-1.0..1.0).contains(&x));
    }
}

#[test]
fn a_sequence_can_be_drawn_in_pieces() {
    let whole: Vec<Value> = Lcg(7).sequence(5);
    assert_eq!(whole[0], Value(-0.013575553894042969));
    assert_eq!(whole[3], Value(-0.4545069932937622));
    let mut rng = Lcg(7);
    let mut pieces: Vec<Value> = rng.sequence(2);
    pieces.extend(rng.sequence::<Value>(3));
    assert_eq!(whole, pieces);
    assert!(Lcg(7).sequence::<Value>(0).is_empty());
}

#[test]
fn every_step_flips_the_lowest_bit_and_leaves_its_start() {
    let mut rng = Lcg(7);
    for _ in 0..1000 {
        let before = rng.0;
        assert_eq!((rng.next_u64() ^ before) & 1, 1);
        assert_ne!(rng.0, 7);
    }
}

#[test]
fn a_step_can_be_undone() {
    for state in [0, 1, 7, u64::MAX] {
        let next = Lcg(state).next_u64();
        let previous = next
            .wrapping_sub(1442695040888963407)
            .wrapping_mul(13877824140714322085);
        assert_eq!(previous, state);
    }
}
