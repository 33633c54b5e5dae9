//! The embedding client: turns one paragraph into the serialized form of a
//! numeric vector through an unreliable external provider, with a bounded
//! retry protocol. The provider is a port the surrounding program
//! implements; every decision around it — the input-size gate, the
//! near-empty-response test, the attempt budget — is verified here over an
//! explicit state machine.
use vstd::prelude::*;

use crate::segment::string_views;
use crate::text::chars_string;
use crate::text::str_chars;

verus! {

/// Upper bound on the number of text units the provider accepts in one
/// request; longer inputs are rejected before any call is made.
pub const EMBED_INPUT_LIMIT: usize = 8191;

/// A serialized response shorter than this carries no usable payload and
/// counts as a failure.
pub const EMBED_MIN_SERIALIZED: usize = 10;

/// True exactly when a text of `len` units may be sent to the provider.
pub fn embed_input_fits(len: usize) -> (r: bool)
    ensures
        r == (len <= EMBED_INPUT_LIMIT),
{
    len <= EMBED_INPUT_LIMIT
}

/// Why a paragraph could not be embedded.
#[derive(Clone, Copy, Debug, PartialEq, Eq, Structural)]
pub enum EmbedError {
    /// The text exceeds the provider's input-size limit; no call was made.
    InputTooLong,
    /// Every granted attempt failed or came back unusable.
    EmbedFailed,
}

/// The embedding boundary: one request for the vector of `text`, as the
/// decimal renderings of its components, or `None` on failure. Nothing is
/// assumed of the result: the retry protocol states what holds whatever
/// comes back.
pub trait EmbedProvider {
    fn request(&mut self, text: &str) -> (r: Option<Vec<String>>);
}

/// The serialized embedding: the components joined by commas, no trailing
/// comma, no surrounding brackets.
pub open spec fn joined_csv(parts: Seq<Seq<char>>) -> Seq<char>
    decreases parts.len(),
{
    if parts.len() == 0 {
        Seq::empty()
    } else if parts.len() == 1 {
        parts[0]
    } else {
        joined_csv(parts.drop_last()) + seq![','] + parts.last()
    }
}

/// Joins the component renderings with commas.
fn serialize_chars(parts: &Vec<String>) -> (r: Vec<char>)
    ensures
        r@ == joined_csv(string_views(parts@)),
{
    let ghost views = string_views(parts@);
    let mut acc: Vec<char> = Vec::new();
    let mut i: usize = 0;
    proof {
        assert(acc@ =~= joined_csv(views.subrange(0, 0)));
    }
    while i < parts.len()
        invariant
            i <= parts.len(),
            views == string_views(parts@),
            acc@ == joined_csv(views.subrange(0, i as int)),
        decreases parts.len() - i,
    {
        proof {
            assert(views.subrange(0, i + 1).drop_last() =~= views.subrange(0, i as int));
            assert(views.subrange(0, i + 1).last() == views[i as int]);
            assert(views[i as int] == parts@[i as int]@);
        }
        if i > 0 {
            acc.push(',');
        }
        let piece = str_chars(parts[i].as_str());
        let mut k: usize = 0;
        let ghost before = acc@;
        while k < piece.len()
            invariant
                k <= piece.len(),
                piece@ == parts@[i as int]@,
                acc@ == before + piece@.subrange(0, k as int),
            decreases piece.len() - k,
        {
            acc.push(piece[k]);
            proof {
                assert(before + piece@.subrange(0, k + 1) =~= (before + piece@.subrange(
                    0,
                    k as int,
                )).push(piece@[k as int]));
            }
            k += 1;
        }
        proof {
            assert(piece@.subrange(0, piece@.len() as int) =~= piece@);
            if i == 0 {
                assert(before =~= joined_csv(views.subrange(0, 0)));
                assert(acc@ =~= views[0]);
                assert(joined_csv(views.subrange(0, 1)) == views.subrange(0, 1)[0]);
            } else {
                assert(acc@ =~= joined_csv(views.subrange(0, i as int)) + seq![',']
                    + views[i as int]);
            }
        }
        i += 1;
    }
    proof {
        assert(views.subrange(0, views.len() as int) =~= views);
    }
    acc
}

/// Joins the component renderings with commas into the serialized embedding
/// format.
pub fn serialize_components(parts: &Vec<String>) -> (r: String)
    ensures
        r@ == joined_csv(string_views(parts@)),
{
    let v = serialize_chars(parts);
    chars_string(&v)
}

/// A serialized response long enough to carry a usable payload.
pub open spec fn usable_serialized(s: Seq<char>) -> bool {
    s.len() >= EMBED_MIN_SERIALIZED
}

/// The views of a provider response.
pub open spec fn resp_views(resp: Option<Vec<String>>) -> Option<Seq<Seq<char>>> {
    match resp {
        None => None,
        Some(parts) => Some(string_views(parts@)),
    }
}

/// What a response is worth: the serialized embedding if the response came
/// back and serializes long enough, nothing otherwise.
pub open spec fn response_value(resp: Option<Seq<Seq<char>>>) -> Option<Seq<char>> {
    match resp {
        None => None,
        Some(parts) => if usable_serialized(joined_csv(parts)) {
            Some(joined_csv(parts))
        } else {
            None
        },
    }
}

/// The retry protocol's state: still owed attempts, or finished with an
/// outcome.
pub enum EmbedState {
    Pending { remaining: u64 },
    Finished { outcome: Result<String, EmbedError> },
}

/// The mathematical image of a protocol state.
pub enum EmbedModel {
    Pending { remaining: u64 },
    Done { outcome: Result<Seq<char>, EmbedError> },
}

pub open spec fn state_model(s: EmbedState) -> EmbedModel {
    match s {
        EmbedState::Pending { remaining } => EmbedModel::Pending { remaining },
        EmbedState::Finished { outcome: Ok(t) } => EmbedModel::Done { outcome: Ok(t@) },
        EmbedState::Finished { outcome: Err(e) } => EmbedModel::Done { outcome: Err(e) },
    }
}

/// One protocol step on a response: a usable response finishes with its
/// serialized embedding; a failure consumes one attempt, and the last
/// attempt's failure finishes with `EmbedFailed`. A finished protocol
/// ignores further responses.
pub open spec fn model_step(m: EmbedModel, resp: Option<Seq<Seq<char>>>) -> EmbedModel {
    match m {
        EmbedModel::Pending { remaining } => match response_value(resp) {
            Some(text) => EmbedModel::Done { outcome: Ok(text) },
            None => if remaining <= 1 {
                EmbedModel::Done { outcome: Err(EmbedError::EmbedFailed) }
            } else {
                EmbedModel::Pending { remaining: (remaining - 1) as u64 }
            },
        },
        EmbedModel::Done { .. } => m,
    }
}

/// Opens the protocol for `text` with `max_attempts` granted attempts: an
/// over-long text fails at once with `InputTooLong` and no attempt is ever
/// granted; a zero budget fails at once with `EmbedFailed`.
pub fn embed_start(text: &str, max_attempts: u64) -> (r: EmbedState)
    ensures
        text@.len() > EMBED_INPUT_LIMIT ==> state_model(r) == (EmbedModel::Done {
            outcome: Err(EmbedError::InputTooLong),
        }),
        text@.len() <= EMBED_INPUT_LIMIT && max_attempts == 0 ==> state_model(r)
            == (EmbedModel::Done { outcome: Err(EmbedError::EmbedFailed) }),
        text@.len() <= EMBED_INPUT_LIMIT && max_attempts > 0 ==> state_model(r)
            == (EmbedModel::Pending { remaining: max_attempts }),
{
    let units = str_chars(text);
    if !embed_input_fits(units.len()) {
        EmbedState::Finished { outcome: Err(EmbedError::InputTooLong) }
    } else if max_attempts == 0 {
        EmbedState::Finished { outcome: Err(EmbedError::EmbedFailed) }
    } else {
        EmbedState::Pending { remaining: max_attempts }
    }
}

/// Advances the protocol on one provider response.
pub fn embed_step(state: EmbedState, response: Option<Vec<String>>) -> (r: EmbedState)
    ensures
        state_model(r) == model_step(state_model(state), resp_views(response)),
{
    match state {
        EmbedState::Finished { outcome } => EmbedState::Finished { outcome },
        EmbedState::Pending { remaining } => {
            match &response {
                None => {
                    if remaining <= 1 {
                        EmbedState::Finished { outcome: Err(EmbedError::EmbedFailed) }
                    } else {
                        EmbedState::Pending { remaining: remaining - 1 }
                    }
                },
                Some(parts) => {
                    let ser = serialize_chars(parts);
                    if ser.len() >= EMBED_MIN_SERIALIZED {
                        let text = chars_string(&ser);
                        EmbedState::Finished { outcome: Ok(text) }
                    } else if remaining <= 1 {
                        EmbedState::Finished { outcome: Err(EmbedError::EmbedFailed) }
                    } else {
                        EmbedState::Pending { remaining: remaining - 1 }
                    }
                },
            }
        },
    }
}

/// The attempts a protocol state may still make, plus one for the closing
/// step.
pub open spec fn model_measure(m: EmbedModel) -> nat {
    match m {
        EmbedModel::Pending { remaining } => remaining as nat + 1,
        EmbedModel::Done { .. } => 0,
    }
}

/// Embeds `text`: at most `max_attempts` provider requests, each failure or
/// near-empty response consuming one; the first usable response wins. An
/// over-long text makes no request and fails with `InputTooLong`; an
/// exhausted budget fails with `EmbedFailed`, never with a panic.
pub fn embed<P: EmbedProvider>(provider: &mut P, text: &str, max_attempts: u64) -> (r: Result<
    String,
    EmbedError,
>)
    ensures
        (r matches Err(e) && e == EmbedError::InputTooLong) <==> text@.len()
            > EMBED_INPUT_LIMIT,
        text@.len() <= EMBED_INPUT_LIMIT && max_attempts == 0 ==> (r matches Err(e) && e
            == EmbedError::EmbedFailed),
        r matches Ok(s) ==> usable_serialized(s@),
{
    let mut state = embed_start(text, max_attempts);
    loop
        invariant
            text@.len() > EMBED_INPUT_LIMIT ==> state_model(state) == (EmbedModel::Done {
                outcome: Err(EmbedError::InputTooLong),
            }),
            text@.len() <= EMBED_INPUT_LIMIT ==> !(state_model(state) == (EmbedModel::Done {
                outcome: Err(EmbedError::InputTooLong),
            })),
            text@.len() <= EMBED_INPUT_LIMIT && max_attempts == 0 ==> state_model(state)
                == (EmbedModel::Done { outcome: Err(EmbedError::EmbedFailed) }),
            state_model(state) matches EmbedModel::Done { outcome: Ok(t) }
                ==> usable_serialized(t),
        decreases model_measure(state_model(state)),
    {
        match state {
            EmbedState::Finished { outcome } => {
                return outcome;
            },
            EmbedState::Pending { remaining } => {
                let response = provider.request(text);
                state = embed_step(EmbedState::Pending { remaining }, response);
            },
        }
    }
}

/// Embeds `paragraph` with the attempts left after `tries` failures: the
/// protocol grants four attempts in all, and always at least one.
pub fn create_embedding<P: EmbedProvider>(
    provider: &mut P,
    paragraph: &str,
    tries: u64,
) -> (r: Result<String, EmbedError>)
    ensures
        (r matches Err(e) && e == EmbedError::InputTooLong) <==> paragraph@.len()
            > EMBED_INPUT_LIMIT,
        r matches Ok(s) ==> usable_serialized(s@),
{
    let remaining = if tries < 4 {
        4 - tries
    } else {
        1
    };
    embed(provider, paragraph, remaining)
}

/// The protocol after `n` failing responses.
pub open spec fn failing_run(m: EmbedModel, n: nat) -> EmbedModel
    decreases n,
{
    if n == 0 {
        m
    } else {
        failing_run(model_step(m, None), (n - 1) as nat)
    }
}

proof fn lemma_failing_run_pending(k: u64, n: u64)
    requires
        n < k,
    ensures
        failing_run(EmbedModel::Pending { remaining: k }, n as nat) == (EmbedModel::Pending {
            remaining: (k - n) as u64,
        }),
    decreases n,
{
    if n > 0 {
        lemma_failing_run_pending((k - 1) as u64, (n - 1) as u64);
    }
}

proof fn lemma_retry_exhaust(k: u64)
    requires
        k >= 1,
    ensures
        failing_run(EmbedModel::Pending { remaining: k }, k as nat) == (EmbedModel::Done {
            outcome: Err(EmbedError::EmbedFailed),
        }),
    decreases k,
{
    let fail = EmbedModel::Done { outcome: Err(EmbedError::EmbedFailed) };
    if k == 1 {
        assert(model_step(EmbedModel::Pending { remaining: 1 }, None) == fail);
        assert(failing_run(EmbedModel::Pending { remaining: 1 }, 1) == failing_run(fail, 0));
    } else {
        lemma_retry_exhaust((k - 1) as u64);
        assert(model_step(EmbedModel::Pending { remaining: k }, None) == (EmbedModel::Pending {
            remaining: (k - 1) as u64,
        }));
        assert(failing_run(EmbedModel::Pending { remaining: k }, k as nat) == failing_run(
            EmbedModel::Pending { remaining: (k - 1) as u64 },
            (k - 1) as nat,
        ));
    }
}

/// Retry bound: with `k` granted attempts, a provider that always fails is
/// asked exactly `k` times — after `k` failing responses the protocol has
/// failed with `EmbedFailed`, and after any fewer it is still waiting for
/// another attempt.
pub proof fn lemma_retry_bound(k: u64)
    requires
        k >= 1,
    ensures
        failing_run(EmbedModel::Pending { remaining: k }, k as nat) == (EmbedModel::Done {
            outcome: Err(EmbedError::EmbedFailed),
        }),
        forall|n: u64|
            n < k ==> failing_run(EmbedModel::Pending { remaining: k }, n as nat)
                == (EmbedModel::Pending { remaining: (k - n) as u64 }),
{
    lemma_retry_exhaust(k);
    assert forall|n: u64| n < k implies failing_run(
        EmbedModel::Pending { remaining: k },
        n as nat,
    ) == (EmbedModel::Pending { remaining: (k - n) as u64 }) by {
        lemma_failing_run_pending(k, n);
    }
}

} // verus!
