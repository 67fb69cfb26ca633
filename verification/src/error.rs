//! What can be wrong with a model or with the notes handed to it.
use crate::text;
use vstd::prelude::*;
use vstd::string::*;

verus! {

/// Why a model could not be loaded or run.
#[derive(Debug)]
pub enum FbmxError {
    /// The container holds a model of this other type.
    UnsupportedModelType(String),
    /// The model, or the notes for it, have a form that the runtime does not
    /// implement.
    UnsupportedArchitecture(String),
    /// The hyperparameters in the header could not be read.
    Hparams(String),
    /// The container holds no tensor of this name.
    MissingTensor(String),
    /// A tensor does not have the shape that the hyperparameters call for.
    ShapeMismatch { name: String, expected: Vec<usize>, found: Vec<usize> },
}

/// An [`FbmxError`] with its texts and shapes as mathematical sequences.
pub enum FbmxErrorView {
    UnsupportedModelType(Seq<char>),
    UnsupportedArchitecture(Seq<char>),
    Hparams(Seq<char>),
    MissingTensor(Seq<char>),
    ShapeMismatch { name: Seq<char>, expected: Seq<usize>, found: Seq<usize> },
}

impl View for FbmxError {
    type V = FbmxErrorView;

    open spec fn view(&self) -> FbmxErrorView {
        match self {
            FbmxError::UnsupportedModelType(text) => FbmxErrorView::UnsupportedModelType(text@),
            FbmxError::UnsupportedArchitecture(text) => FbmxErrorView::UnsupportedArchitecture(
                text@,
            ),
            FbmxError::Hparams(text) => FbmxErrorView::Hparams(text@),
            FbmxError::MissingTensor(text) => FbmxErrorView::MissingTensor(text@),
            FbmxError::ShapeMismatch { name, expected, found } => FbmxErrorView::ShapeMismatch {
                name: name@,
                expected: expected@,
                found: found@,
            },
        }
    }
}

/// A recurrent cell other than a GRU; `quoted` is its name as `Debug` writes it.
pub open spec fn unsupported_rnn_view(quoted: Seq<char>) -> FbmxErrorView {
    FbmxErrorView::UnsupportedArchitecture(
        "performer rnn = "@ + quoted + "; only gru is implemented"@,
    )
}

/// A stack of `num_layers` layers.
pub open spec fn unsupported_layers_view(num_layers: usize) -> FbmxErrorView {
    FbmxErrorView::UnsupportedArchitecture(
        "performer num_layers = "@ + text::decimal(num_layers as nat)
            + "; only a single layer is implemented"@,
    )
}

/// A hidden state of `hidden_size` units.
pub open spec fn unsupported_hidden_view(hidden_size: usize) -> FbmxErrorView {
    FbmxErrorView::UnsupportedArchitecture(
        "hidden_size = "@ + text::decimal(hidden_size as nat)
            + " is outside the supported range 1..=1024"@,
    )
}

/// A buffer of `length` values that is no whole number of notes.
pub open spec fn broken_notes_view(length: usize, input_size: usize) -> FbmxErrorView {
    FbmxErrorView::UnsupportedArchitecture(
        "note buffer of "@ + text::decimal(length as nat)
            + " values is not a multiple of the "@ + text::decimal(input_size as nat)
            + " input features"@,
    )
}

impl FbmxError {
    /// The error for a recurrent cell other than a GRU, given its quoted name.
    pub fn unsupported_rnn(quoted: &str) -> (error: FbmxError)
        ensures
            error@ == unsupported_rnn_view(quoted@),
    {
        FbmxError::UnsupportedArchitecture(
            text::joined("performer rnn = ", quoted, "; only gru is implemented"),
        )
    }

    /// The error for more or fewer layers than one.
    pub fn unsupported_layers(num_layers: usize) -> (error: FbmxError)
        ensures
            error@ == unsupported_layers_view(num_layers),
    {
        let count: String = text::decimal_text(num_layers);
        FbmxError::UnsupportedArchitecture(
            text::joined(
                "performer num_layers = ",
                count.as_str(),
                "; only a single layer is implemented",
            ),
        )
    }

    /// The error for a hidden size outside the supported range.
    pub fn unsupported_hidden(hidden_size: usize) -> (error: FbmxError)
        ensures
            error@ == unsupported_hidden_view(hidden_size),
    {
        let size: String = text::decimal_text(hidden_size);
        FbmxError::UnsupportedArchitecture(
            text::joined(
                "hidden_size = ",
                size.as_str(),
                " is outside the supported range 1..=1024",
            ),
        )
    }

    /// The error for a note buffer that does not divide into notes.
    pub fn broken_notes(length: usize, input_size: usize) -> (error: FbmxError)
        ensures
            error@ == broken_notes_view(length, input_size),
    {
        let values: String = text::decimal_text(length);
        let features: String = text::decimal_text(input_size);
        let mut message: String = text::joined(
            "note buffer of ",
            values.as_str(),
            " values is not a multiple of the ",
        );
        message.append(features.as_str());
        message.append(" input features");
        FbmxError::UnsupportedArchitecture(message)
    }
}

} // verus!
