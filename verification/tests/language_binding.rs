use parse_runner::binding::BindError;
use parse_runner::binding::BindQuery;
use parse_runner::binding::BindStep;
use parse_runner::binding::BoundVia;
use parse_runner::binding::binding_step;
use parse_runner::binding::start_binding;

#[test]
fn scope_override_is_asked_first() {
    assert!(matches!(
        start_binding(Some("source.rust".to_string())),
        BindQuery::ByScope(s) if s == "source.rust"
    ));
    assert!(matches!(start_binding(None), BindQuery::ByFilename));
}

#[test]
fn known_scope_binds_by_scope_alone() {
    let step = binding_step(BindQuery::ByScope("source.rust".to_string()), Some(7), false);
    match step {
        BindStep::Bound(binding) => {
            assert_eq!(binding.language, 7);
            assert_eq!(binding.via, BoundVia::ScopeOverride);
        },
        _ => panic!("expected a binding"),
    }
}

#[test]
fn unknown_scope_is_fatal_and_named() {
    let step = binding_step(BindQuery::ByScope("source.unknown".to_string()), None, true);
    match step {
        BindStep::Fail(BindError::UnknownScope(scope)) => assert_eq!(scope, "source.unknown"),
        _ => panic!("expected an unknown-scope failure"),
    }
}

#[test]
fn filename_match_binds_else_content_is_sniffed() {
    match binding_step(BindQuery::ByFilename, Some(3), false) {
        BindStep::Bound(binding) => {
            assert_eq!(binding.language, 3);
            assert_eq!(binding.via, BoundVia::FilenamePattern);
        },
        _ => panic!("expected a binding"),
    }
    assert!(matches!(
        binding_step(BindQuery::ByFilename, None, false),
        BindStep::Ask(BindQuery::ByContent)
    ));
    match binding_step(BindQuery::ByContent, Some(5), false) {
        BindStep::Bound(binding) => {
            assert_eq!(binding.language, 5);
            assert_eq!(binding.via, BoundVia::ContentSniff);
        },
        _ => panic!("expected a binding"),
    }
}

#[test]
fn unmatched_file_fails_single_grammar_commands_and_skips_in_batch() {
    assert!(matches!(
        binding_step(BindQuery::ByContent, None, false),
        BindStep::Fail(BindError::NoLanguageFound)
    ));
    assert!(matches!(binding_step(BindQuery::ByContent, None, true), BindStep::Skip));
}
