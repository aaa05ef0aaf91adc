//! Around the acoustic model: what may go into it, and what its output must
//! look like.

use vstd::prelude::*;
use vstd::string::StringExecFns;

use crate::align::job;
use crate::binary32;
use crate::binary32::Binary32;
use crate::lang::Lang;
use crate::text;
use crate::types::{AlignmentFailureKind, WorkFailure};

verus! {

/// Log-probabilities by frame and vocabulary entry.
#[derive(Debug)]
pub struct LogProbsTV {
    /// Number of frames.
    pub t: usize,
    /// Size of the vocabulary.
    pub v: usize,
    /// One row of `v` values per frame.
    pub data: Vec<Binary32>,
}

impl LogProbsTV {
    /// There is a row for every frame.
    pub open spec fn wf(self) -> bool {
        self.data@.len() == self.t * self.v
    }

    /// The row of a frame.
    pub open spec fn row(self, t: int) -> Seq<Binary32> {
        self.data@.subrange(t * self.v, (t + 1) * self.v)
    }

    /// The log-probability of a vocabulary entry at a frame.
    pub fn at(&self, t_idx: usize, v_idx: usize) -> (value: Binary32)
        requires
            t_idx * self.v + v_idx < self.data@.len(),
        ensures
            value == self.data@[t_idx * self.v + v_idx],
            self.wf() && t_idx < self.t && v_idx < self.v ==> value == self.row(
                t_idx as int,
            )[v_idx as int],
    {
        assert(self.data@.len() == self.data.len());
        assert(0 <= t_idx * self.v) by (nonlinear_arith);
        proof {
            if self.wf() && t_idx < self.t && v_idx < self.v {
                lemma_row_bounds(self.t as int, self.v as int, t_idx as int);
            }
        }
        self.data[t_idx * self.v + v_idx]
    }
}

proof fn lemma_row_bounds(t: int, v: int, i: int)
    requires
        0 <= i < t,
        0 <= v,
    ensures
        0 <= i * v <= (i + 1) * v <= t * v,
        (i + 1) * v == i * v + v,
{
    assert((i + 1) * v == i * v + v) by (nonlinear_arith);
    assert(0 <= i * v) by (nonlinear_arith)
        requires
            0 <= i,
            0 <= v,
    ;
    assert((i + 1) * v <= t * v) by (nonlinear_arith)
        requires
            i + 1 <= t,
            0 <= v,
    ;
}

/// A failure of the acoustic model.
pub open spec fn model_failure(failure: WorkFailure, message: Seq<char>, language: Lang) -> bool {
    failure matches WorkFailure::AlignmentFailed { kind, message: m, language: l } && kind
        == AlignmentFailureKind::ModelInferenceFailed && m@ == message && l == language
}

/// A failure of the acoustic model with the given description.
pub fn inference_failed(message: String, language: &Lang) -> (failure: WorkFailure)
    ensures
        model_failure(failure, message@, *language),
{
    WorkFailure::AlignmentFailed {
        kind: AlignmentFailureKind::ModelInferenceFailed,
        message,
        language: language.clone(),
    }
}

/// What the acoustic model is blamed for is never passed over: no such failure is
/// recoverable, whatever its description.
pub proof fn model_failures_are_not_recoverable(
    failure: WorkFailure,
    message: Seq<char>,
    language: Lang,
)
    requires
        model_failure(failure, message, language),
    ensures
        !job::recoverable(failure),
        failure matches WorkFailure::AlignmentFailed { kind, message: m, language: l } && kind
            is ModelInferenceFailed && m@ == message && l == language,
{
}

/// How a non-finite value is written.
pub open spec fn non_finite_text(value: Binary32) -> Seq<char> {
    if value.nan() {
        "NaN"@
    } else if value.negative() {
        "-inf"@
    } else {
        "inf"@
    }
}

/// The description of a non-finite sample.
pub open spec fn non_finite_message(samples: Seq<Binary32>, i: int) -> Seq<char> {
    "samples_for_aligner contains non-finite value at index "@ + text::decimal(i as nat) + ": "@
        + non_finite_text(samples[i])
}

/// A refused sample is described by its place and by what it is: an infinity with
/// its sign, or no number.
pub proof fn refused_samples_are_named(samples: Seq<Binary32>, i: int)
    requires
        first_non_finite(samples, i),
    ensures
        ({
            let value = match samples[i].bits {
                0x7f80_0000 => "inf"@,
                0xff80_0000 => "-inf"@,
                _ => "NaN"@,
            };
            non_finite_message(samples, i)
                == "samples_for_aligner contains non-finite value at index "@ + text::decimal(
                i as nat,
            ) + ": "@ + value
        }),
        forall|j: int|
            0 <= j < i ==> (#[trigger] samples[j]).bits < 0x7f80_0000 || 0x8000_0000
                <= samples[j].bits < 0xff80_0000,
{
    binary32::bit_patterns_order_the_values(samples[i]);
    assert forall|j: int| 0 <= j < i implies (#[trigger] samples[j]).bits < 0x7f80_0000
        || 0x8000_0000 <= samples[j].bits < 0xff80_0000 by {
        binary32::bit_patterns_order_the_values(samples[j]);
    }
}

/// The first non-finite sample.
pub open spec fn first_non_finite(samples: Seq<Binary32>, i: int) -> bool {
    &&& 0 <= i < samples.len()
    &&& !samples[i].finite()
    &&& forall|j: int| 0 <= j < i ==> (#[trigger] samples[j]).finite()
}

proof fn lemma_one_is_first(samples: Seq<Binary32>, i: int, j: int)
    requires
        first_non_finite(samples, i),
        first_non_finite(samples, j),
    ensures
        i == j,
{
    if i < j {
        assert(samples[i].finite());
    }
    if j < i {
        assert(samples[j].finite());
    }
}

/// Why samples are refused; `None` if all of them are finite.
pub open spec fn non_finite_refusal(samples: Seq<Binary32>) -> Option<Seq<char>> {
    if forall|i: int| 0 <= i < samples.len() ==> (#[trigger] samples[i]).finite() {
        None
    } else {
        Some(non_finite_message(samples, choose|i: int| first_non_finite(samples, i)))
    }
}

/// Why samples may not go into the model; `None` if they may.
pub open spec fn encoder_refusal(samples: Seq<Binary32>) -> Option<Seq<char>> {
    if samples.len() == 0 {
        Some("samples_for_aligner is empty"@)
    } else {
        non_finite_refusal(samples)
    }
}

/// The shape in which samples go into the model.
pub open spec fn encoder_shape(samples: Seq<Binary32>) -> (i64, i64) {
    (1i64, samples.len() as i64)
}

/// Samples go into the model as one batch of all of them.
pub proof fn samples_go_in_as_one_batch(samples: Seq<Binary32>)
    requires
        samples.len() <= i64::MAX,
    ensures
        encoder_shape(samples).0 == 1,
        encoder_shape(samples).0 * encoder_shape(samples).1 == samples.len(),
{
}

/// Samples may go into the model exactly if there are any and all of them are
/// finite, however many and however large; otherwise the refusal names the first
/// that is not.
pub proof fn only_finite_samples_go_in(samples: Seq<Binary32>)
    ensures
        encoder_refusal(samples) is None <==> samples.len() > 0 && forall|i: int|
            0 <= i < samples.len() ==> {
                ||| (#[trigger] samples[i]).bits < 0x7f80_0000
                ||| 0x8000_0000 <= samples[i].bits < 0xff80_0000
            },
        samples.len() == 0 ==> encoder_refusal(samples) == Some("samples_for_aligner is empty"@),
        forall|i: int|
            samples.len() > 0 && #[trigger] first_non_finite(samples, i) ==> encoder_refusal(
                samples,
            ) == Some(non_finite_message(samples, i)),
{
    assert forall|i: int| 0 <= i < samples.len() implies ((#[trigger] samples[i]).finite() <==> {
        ||| samples[i].bits < 0x7f80_0000
        ||| 0x8000_0000 <= samples[i].bits < 0xff80_0000
    }) by {
        binary32::bit_patterns_order_the_values(samples[i]);
    }
    assert forall|i: int|
        samples.len() > 0 && #[trigger] first_non_finite(samples, i) implies encoder_refusal(
        samples,
    ) == Some(non_finite_message(samples, i)) by {
        lemma_one_is_first(samples, i, choose|k: int| first_non_finite(samples, k));
    }
}

/// Refuse samples that are infinite or not a number. One of them would spoil
/// every value computed from the chunk. The failure names the first.
pub fn reject_non_finite_input(samples: &[Binary32], language: &Lang) -> (result: Result<
    (),
    WorkFailure,
>)
    ensures
        result is Ok <==> non_finite_refusal(samples@) is None,
        result matches Err(failure) ==> model_failure(
            failure,
            non_finite_refusal(samples@)->0,
            *language,
        ),
        result is Ok <==> forall|i: int| 0 <= i < samples@.len() ==> (
        #[trigger] samples@[i]).finite(),
        result matches Err(failure) ==> exists|i: int| #[trigger]
            first_non_finite(samples@, i) && model_failure(
                failure,
                non_finite_message(samples@, i),
                *language,
            ),
{
    let mut i: usize = 0;
    while i < samples.len()
        invariant
            i <= samples@.len(),
            forall|j: int| 0 <= j < i ==> (#[trigger] samples@[j]).finite(),
        decreases samples@.len() - i,
    {
        if !samples[i].is_finite() {
            let mut message: String = String::from_str(
                "samples_for_aligner contains non-finite value at index ",
            );
            text::push_decimal(&mut message, i as u64);
            message.append(": ");
            if samples[i].is_nan() {
                message.append("NaN");
            } else if samples[i].is_negative() {
                message.append("-inf");
            } else {
                message.append("inf");
            }
            proof {
                assert(first_non_finite(samples@, i as int));
                lemma_one_is_first(
                    samples@,
                    i as int,
                    choose|k: int| first_non_finite(samples@, k),
                );
                assert(message@ =~= non_finite_message(samples@, i as int));
            }
            return Err(inference_failed(message, language));
        }
        i += 1;
    }
    Ok(())
}

/// What may go into the model: some samples, all of them finite. On success,
/// the shape of the input tensor.
pub fn check_encoder_input(samples: &[Binary32], language: &Lang) -> (result: Result<
    (i64, i64),
    WorkFailure,
>)
    requires
        samples@.len() <= i64::MAX,
    ensures
        result is Ok <==> encoder_refusal(samples@) is None,
        result matches Err(failure) ==> model_failure(
            failure,
            encoder_refusal(samples@)->0,
            *language,
        ),
        match result {
            Ok(shape) => {
                &&& samples@.len() > 0
                &&& forall|i: int| 0 <= i < samples@.len() ==> (#[trigger] samples@[i]).finite()
                &&& shape == encoder_shape(samples@)
            },
            Err(failure) => if samples@.len() == 0 {
                model_failure(failure, "samples_for_aligner is empty"@, *language)
            } else {
                exists|i: int| #[trigger]
                    first_non_finite(samples@, i) && model_failure(
                        failure,
                        non_finite_message(samples@, i),
                        *language,
                    )
            },
        },
{
    if samples.len() == 0 {
        return Err(inference_failed(String::from_str("samples_for_aligner is empty"), language));
    }
    match reject_non_finite_input(samples, language) {
        Ok(_) => Ok((1, samples.len() as i64)),
        Err(failure) => Err(failure),
    }
}

/// A tensor that the model gave.
#[derive(Debug)]
pub struct RawLogits {
    /// Its dimensions.
    pub shape: Vec<i64>,
    /// Its values, in row-major order.
    pub data: Vec<Binary32>,
}

impl RawLogits {
    /// One batch of frames by vocabulary entries.
    pub open spec fn batched(self) -> bool {
        self.shape@.len() == 3 && self.shape@[0] == 1
    }

    /// Number of frames.
    pub open spec fn frames(self) -> int {
        self.shape@[1] as int
    }

    /// Size of the vocabulary.
    pub open spec fn vocabulary(self) -> int {
        self.shape@[2] as int
    }

    /// The values of a frame.
    pub open spec fn row(self, t: int) -> Seq<Binary32> {
        self.data@.subrange(t * self.vocabulary(), (t + 1) * self.vocabulary())
    }

    /// The dimensions fit in a `usize`, and the tensor holds as many values as
    /// they say.
    pub open spec fn filled(self) -> bool {
        &&& 0 <= self.frames() <= usize::MAX
        &&& 0 <= self.vocabulary() <= usize::MAX
        &&& self.frames() * self.vocabulary() <= self.data@.len()
    }

    /// The description of an output that is no list of frames.
    pub open spec fn shape_message(self) -> Seq<char> {
        "expected output shape (1, T, V); got ["@ + text::comma_separated(self.shape@) + "]"@
    }

    /// Why the output cannot be used; `None` if it can.
    pub open spec fn refusal(self) -> Option<Seq<char>> {
        if !self.batched() {
            Some(self.shape_message())
        } else if self.frames() == 0 || self.vocabulary() == 0 {
            Some(self.empty_message())
        } else {
            None
        }
    }

    /// The description of an output without frames or vocabulary.
    pub open spec fn empty_message(self) -> Seq<char> {
        "output has zero T="@ + text::decimal(self.frames() as nat) + " or V="@ + text::decimal(
            self.vocabulary() as nat,
        )
    }
}

/// The model's output is a list of frames if it has three dimensions, the first of
/// them one. The second is the number of frames, the third the size of the
/// vocabulary, and the values of a frame stand behind those of the frames before.
pub proof fn frames_follow_each_other(output: RawLogits, t: int, i: int)
    requires
        output.batched(),
        output.filled(),
        0 <= t < output.shape@[1],
        0 <= i < output.shape@[2],
    ensures
        output.row(t).len() == output.shape@[2],
        output.row(t)[i] == output.data@[t * output.shape@[2] + i],
{
    lemma_row_bounds(output.frames(), output.vocabulary(), t);
}

/// An output that cannot be used is described by its dimensions: all of them where
/// it is no list of frames, else the number of frames and the vocabulary's size.
pub proof fn refused_outputs_are_named(output: RawLogits)
    requires
        output.batched() ==> output.filled(),
    ensures
        output.shape@.len() != 3 || output.shape@[0] != 1 ==> output.refusal() == Some(
            "expected output shape (1, T, V); got ["@ + text::comma_separated(output.shape@)
                + "]"@,
        ),
        output.shape@.len() == 3 && output.shape@[0] == 1 && (output.shape@[1] == 0
            || output.shape@[2] == 0) ==> output.refusal() == Some(
            "output has zero T="@ + text::decimal(output.shape@[1] as nat) + " or V="@
                + text::decimal(output.shape@[2] as nat),
        ),
{
}

/// Whether an output is a list of frames, and whether it can be used, depends on
/// its dimensions alone: three of them, the first one, the others not zero.
pub proof fn frames_need_three_dimensions(output: RawLogits)
    ensures
        output.refusal() is None <==> output.shape@.len() == 3 && output.shape@[0] == 1
            && output.shape@[1] != 0 && output.shape@[2] != 0,
        output.batched() <==> output.shape@.len() == 3 && output.shape@[0] == 1,
        output.batched() ==> output.frames() == output.shape@[1] && output.vocabulary()
            == output.shape@[2],
{
}

/// Log-probabilities are laid out frame by frame.
pub proof fn log_probs_follow_each_other(probs: LogProbsTV, t: int, i: int)
    requires
        probs.wf(),
        0 <= t < probs.t,
        0 <= i < probs.v,
    ensures
        probs.row(t).len() == probs.v,
        probs.row(t)[i] == probs.data@[t * probs.v + i],
{
    lemma_row_bounds(probs.t as int, probs.v as int, t);
}

/// The number of frames and the size of the vocabulary of the model's output.
pub fn logits_dims(output: &RawLogits, language: &Lang) -> (result: Result<
    (usize, usize),
    WorkFailure,
>)
    requires
        output.batched() ==> output.filled(),
    ensures
        result is Ok <==> output.refusal() is None,
        result matches Err(failure) ==> model_failure(
            failure,
            output.refusal()->0,
            *language,
        ),
        match result {
            Ok(dims) => {
                &&& output.batched()
                &&& dims.0 == output.frames() > 0
                &&& dims.1 == output.vocabulary() > 0
            },
            Err(failure) => if !output.batched() {
                model_failure(failure, output.shape_message(), *language)
            } else {
                &&& output.frames() == 0 || output.vocabulary() == 0
                &&& model_failure(failure, output.empty_message(), *language)
            },
        },
{
    if output.shape.len() != 3 || output.shape[0] != 1 {
        let mut message: String = String::from_str("expected output shape (1, T, V); got [");
        text::push_comma_separated(&mut message, output.shape.as_slice());
        message.append("]");
        assert(message@ =~= output.shape_message());
        return Err(inference_failed(message, language));
    }
    let t: usize = output.shape[1] as usize;
    let v: usize = output.shape[2] as usize;
    if t == 0 || v == 0 {
        let mut message: String = String::from_str("output has zero T=");
        text::push_decimal(&mut message, t as u64);
        message.append(" or V=");
        text::push_decimal(&mut message, v as u64);
        assert(message@ =~= output.empty_message());
        return Err(inference_failed(message, language));
    }
    Ok((t, v))
}

/// `log_softmax` may give the row `out` for the row `logits`.
pub open spec fn computed_by<F: Fn(&[Binary32]) -> Vec<Binary32>>(
    log_softmax: F,
    logits: Seq<Binary32>,
    out: Seq<Binary32>,
) -> bool {
    exists|row: &[Binary32], result: Vec<Binary32>| #[trigger]
        call_ensures(log_softmax, (row,), result) && row@ == logits && result@ == out
}

/// Turn the model's output into log-probabilities, row by row. `log_softmax`
/// computes a row of log-probabilities from a row of logits.
pub fn log_probs_of<F: Fn(&[Binary32]) -> Vec<Binary32>>(
    output: Option<RawLogits>,
    language: &Lang,
    log_softmax: F,
) -> (result: Result<LogProbsTV, WorkFailure>)
    requires
        output matches Some(logits) ==> logits.batched() ==> {
            &&& logits.filled()
            &&& forall|row: &[Binary32]|
                row@.len() == logits.vocabulary() ==> #[trigger] call_requires(log_softmax, (row,))
            &&& forall|row: &[Binary32], out: Vec<Binary32>| #[trigger]
                call_ensures(log_softmax, (row,), out) ==> out@.len() == row@.len()
        },
    ensures
        match output {
            None => result matches Err(failure) && model_failure(
                failure,
                "Session::run returned no outputs"@,
                *language,
            ),
            Some(logits) => match result {
                Err(failure) => if !logits.batched() {
                    model_failure(failure, logits.shape_message(), *language)
                } else {
                    &&& logits.frames() == 0 || logits.vocabulary() == 0
                    &&& model_failure(failure, logits.empty_message(), *language)
                },
                Ok(probs) => {
                    &&& logits.batched()
                    &&& logits.frames() > 0 && logits.vocabulary() > 0
                    &&& probs.t == logits.frames()
                    &&& probs.v == logits.vocabulary()
                    &&& probs.wf()
                    &&& forall|t: int|
                        0 <= t < probs.t ==> computed_by(
                            log_softmax,
                            logits.row(t),
                            #[trigger] probs.row(t),
                        )
                    &&& logits.refusal() is None
                },
            },
        },
{
    let logits: RawLogits = match output {
        None => {
            return Err(
                inference_failed(String::from_str("Session::run returned no outputs"), language),
            );
        },
        Some(logits) => logits,
    };
    let (t, v): (usize, usize) = match logits_dims(&logits, language) {
        Ok(dims) => dims,
        Err(failure) => {
            return Err(failure);
        },
    };
    let mut data: Vec<Binary32> = Vec::new();
    let mut t_idx: usize = 0;
    assert(logits.data@.len() == logits.data.len());
    while t_idx < t
        invariant
            t_idx <= t == logits.frames(),
            v == logits.vocabulary(),
            t * v <= logits.data@.len() <= usize::MAX,
            data@.len() == t_idx * v,
            forall|row: &[Binary32]|
                row@.len() == v ==> #[trigger] call_requires(log_softmax, (row,)),
            forall|row: &[Binary32], out: Vec<Binary32>| #[trigger]
                call_ensures(log_softmax, (row,), out) ==> out@.len() == row@.len(),
            forall|i: int|
                0 <= i < t_idx ==> computed_by(
                    log_softmax,
                    #[trigger] logits.row(i),
                    data@.subrange(i * v, (i + 1) * v),
                ),
        decreases t - t_idx,
    {
        proof {
            lemma_row_bounds(t as int, v as int, t_idx as int);
        }
        let row: &[Binary32] = vstd::slice::slice_subrange(
            logits.data.as_slice(),
            t_idx * v,
            t_idx * v + v,
        );
        let mut out: Vec<Binary32> = log_softmax(row);
        let ghost before = data@;
        let ghost given = out;
        data.append(&mut out);
        proof {
            assert forall|i: int| 0 <= i < t_idx + 1 implies computed_by(
                log_softmax,
                #[trigger] logits.row(i),
                data@.subrange(i * v, (i + 1) * v),
            ) by {
                if i < t_idx {
                    lemma_row_bounds(t_idx as int, v as int, i);
                    assert(before.subrange(i * v, (i + 1) * v) =~= data@.subrange(
                        i * v,
                        (i + 1) * v,
                    ));
                } else {
                    assert(data@.subrange(i * v, (i + 1) * v) =~= given@);
                    assert(call_ensures(log_softmax, (row,), given));
                }
            }
        }
        t_idx += 1;
    }
    let ghost rows = data@;
    let probs = LogProbsTV { t, v, data };
    assert forall|i: int| 0 <= i < probs.t implies computed_by(
        log_softmax,
        logits.row(i),
        #[trigger] probs.row(i),
    ) by {
        assert(computed_by(log_softmax, logits.row(i), rows.subrange(i * v, (i + 1) * v)));
    }
    Ok(probs)
}

} // verus!
