//! What the numbers and messages in texts say.
use crate::error;
use crate::error::FbmxError;
use crate::error::FbmxErrorView;
use crate::text;
use vstd::prelude::*;

verus! {

/// The number that a row of decimal digits stands for.
pub open spec fn numeral_value(digits: Seq<char>) -> int
    decreases digits.len(),
{
    if digits.len() == 0 {
        0
    } else {
        10 * numeral_value(digits.drop_last()) + (digits.last() as int - '0' as int)
    }
}

/// A number's text reads back as the number, and is the only one that does:
/// decimal digits throughout, the first of several not a zero.
pub proof fn law_a_number_reads_back(n: nat)
    ensures
        numeral_value(text::decimal(n)) == n,
        text::decimal(n).len() >= 1,
        text::decimal(n).len() > 1 ==> text::decimal(n)[0] != '0',
        forall|i: int|
            0 <= i < text::decimal(n).len() ==> '0' <= #[trigger] text::decimal(n)[i] <= '9',
    decreases n,
{
    let s = text::decimal(n);
    if n < 10 {
        assert(s.drop_last() =~= Seq::empty());
        assert(numeral_value(s.drop_last()) == 0);
    } else {
        law_a_number_reads_back(n / 10);
        assert(s.drop_last() =~= text::decimal(n / 10));
        assert(s[0] == text::decimal(n / 10)[0]);
        if text::decimal(n / 10).len() == 1 {
            let first = text::decimal(n / 10);
            assert(first.drop_last() =~= Seq::empty());
            assert(numeral_value(first.drop_last()) == 0);
            assert(n / 10 >= 1);
        }
        assert forall|i: int| 0 <= i < s.len() implies '0' <= #[trigger] s[i] <= '9' by {
            if i < s.len() - 1 {
                assert(s[i] == text::decimal(n / 10)[i]);
            }
        }
    }
}

/// An error shows all that it holds, and of each kind in the same way.
pub proof fn law_errors_show_what_they_hold(
    text: String,
    expected: Vec<usize>,
    found: Vec<usize>,
)
    ensures
        FbmxError::UnsupportedModelType(text)@ == FbmxErrorView::UnsupportedModelType(text@),
        FbmxError::UnsupportedArchitecture(text)@ == FbmxErrorView::UnsupportedArchitecture(text@),
        FbmxError::Hparams(text)@ == FbmxErrorView::Hparams(text@),
        FbmxError::MissingTensor(text)@ == FbmxErrorView::MissingTensor(text@),
        (FbmxError::ShapeMismatch { name: text, expected, found })@
            == (FbmxErrorView::ShapeMismatch {
            name: text@,
            expected: expected@,
            found: found@,
        }),
{
}

/// Every refusal names what was refused, and only that varies in its message.
pub proof fn law_messages_name_what_was_refused(quoted: Seq<char>, n: usize, m: usize)
    ensures
        error::unsupported_rnn_view(quoted) == FbmxErrorView::UnsupportedArchitecture(
            "performer rnn = "@ + quoted + "; only gru is implemented"@,
        ),
        error::unsupported_layers_view(n) == FbmxErrorView::UnsupportedArchitecture(
            "performer num_layers = "@ + text::decimal(n as nat)
                + "; only a single layer is implemented"@,
        ),
        error::unsupported_hidden_view(n) == FbmxErrorView::UnsupportedArchitecture(
            "hidden_size = "@ + text::decimal(n as nat)
                + " is outside the supported range 1..=1024"@,
        ),
        error::broken_notes_view(n, m) == FbmxErrorView::UnsupportedArchitecture(
            "note buffer of "@ + text::decimal(n as nat) + " values is not a multiple of the "@
                + text::decimal(m as nat) + " input features"@,
        ),
{
}

} // verus!
