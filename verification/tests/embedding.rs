use lawharvest::embed::create_embedding;
use lawharvest::embed::embed;
use lawharvest::embed::embed_input_fits;
use lawharvest::embed::serialize_components;
use lawharvest::embed::EmbedError;
use lawharvest::embed::EmbedProvider;

/// A provider that always fails, counting how often it was asked.
struct FailingProvider {
    calls: u64,
}

impl EmbedProvider for FailingProvider {
    fn request(&mut self, _text: &str) -> Option<Vec<String>> {
        self.calls += 1;
        None
    }
}

/// A provider that answers from a scripted list of responses, counting
/// calls.
struct ScriptedProvider {
    responses: Vec<Option<Vec<String>>>,
    calls: usize,
}

impl EmbedProvider for ScriptedProvider {
    fn request(&mut self, _text: &str) -> Option<Vec<String>> {
        let r = if self.calls < self.responses.len() {
            self.responses[self.calls].clone()
        } else {
            None
        };
        self.calls += 1;
        r
    }
}

#[test]
fn retry_bound_makes_exactly_max_attempts() {
    let mut p = FailingProvider { calls: 0 };
    let r = embed(&mut p, "en paragraf", 4);
    assert_eq!(p.calls, 4);
    assert!(matches!(r, Err(EmbedError::EmbedFailed)));
}

#[test]
fn retry_bound_single_attempt() {
    let mut p = FailingProvider { calls: 0 };
    let r = embed(&mut p, "en paragraf", 1);
    assert_eq!(p.calls, 1);
    assert!(matches!(r, Err(EmbedError::EmbedFailed)));
}

#[test]
fn long_input_short_circuits_without_any_call() {
    let mut p = FailingProvider { calls: 0 };
    let text = "a".repeat(8192);
    let r = embed(&mut p, &text, 4);
    assert_eq!(p.calls, 0);
    assert!(matches!(r, Err(EmbedError::InputTooLong)));
}

#[test]
fn limit_boundary_is_inclusive() {
    let mut p = FailingProvider { calls: 0 };
    let text = "a".repeat(8191);
    let r = embed(&mut p, &text, 2);
    assert_eq!(p.calls, 2);
    assert!(matches!(r, Err(EmbedError::EmbedFailed)));
}

#[test]
fn usable_response_is_serialized_without_trailing_comma() {
    let mut p = ScriptedProvider {
        responses: vec![Some(vec![
            String::from("0.125"),
            String::from("-0.5"),
            String::from("0.25"),
        ])],
        calls: 0,
    };
    let r = embed(&mut p, "en paragraf", 4);
    assert_eq!(p.calls, 1);
    assert_eq!(r, Ok(String::from("0.125,-0.5,0.25")));
}

#[test]
fn near_empty_response_counts_as_failure() {
    let mut p = ScriptedProvider {
        responses: vec![Some(vec![String::from("1"), String::from("2")]), None],
        calls: 0,
    };
    let r = embed(&mut p, "en paragraf", 2);
    assert_eq!(p.calls, 2);
    assert!(matches!(r, Err(EmbedError::EmbedFailed)));
}

#[test]
fn retry_recovers_after_failures() {
    let mut p = ScriptedProvider {
        responses: vec![
            None,
            None,
            Some(vec![
                String::from("3.25"),
                String::from("4.75"),
                String::from("5.5"),
            ]),
        ],
        calls: 0,
    };
    let r = embed(&mut p, "en paragraf", 4);
    assert_eq!(p.calls, 3);
    assert_eq!(r, Ok(String::from("3.25,4.75,5.5")));
}

#[test]
fn create_embedding_grants_four_attempts_from_zero_tries() {
    let mut p = FailingProvider { calls: 0 };
    let r = create_embedding(&mut p, "en paragraf", 0);
    assert_eq!(p.calls, 4);
    assert!(matches!(r, Err(EmbedError::EmbedFailed)));
}

#[test]
fn create_embedding_exhausted_tries_still_attempts_once() {
    let mut p = FailingProvider { calls: 0 };
    let r = create_embedding(&mut p, "en paragraf", 7);
    assert_eq!(p.calls, 1);
    assert!(matches!(r, Err(EmbedError::EmbedFailed)));
}

#[test]
fn serialization_joins_components_with_commas() {
    let parts = vec![String::from("1.5"), String::from("2"), String::from("-3")];
    assert_eq!(serialize_components(&parts), "1.5,2,-3");
    let empty: Vec<String> = Vec::new();
    assert_eq!(serialize_components(&empty), "");
}

#[test]
fn input_fits_respects_limit() {
    assert!(embed_input_fits(8191));
    assert!(!embed_input_fits(8192));
}
