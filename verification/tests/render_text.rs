//! The three renderings, prompt sanitization, and the dispatcher's
//! decisions.

use frs::dispatch::{inspect_source, render_run, resolve_builder, BuilderKind, InspectSource};
use frs::model::{get_base_context, Context, Metadata, MetadataStepLog};
use frs::ops::with_workdir;
use frs::FrsError;

fn named_context(namespace: &str, name: &str, dirty: bool) -> Context {
    Context {
        meta: Metadata {
            namespace: namespace.to_owned(),
            name: name.to_owned(),
            is_dirty: dirty,
            step_log: vec![],
        },
        env: vec![],
        template: "true".to_owned(),
    }
}

#[test]
fn inspect_header_default_namespace() {
    let c = named_context("default", "proj", false);
    let out = c.pretty_print().render();
    assert_eq!(out, "# name: proj\ntrue\n");
}

#[test]
fn inspect_header_other_namespace() {
    let c = named_context("team", "proj", false);
    let out = c.pretty_print().render();
    assert_eq!(out, "# name: team::proj\ntrue\n");
}

#[test]
fn inspect_lists_steps_and_env() {
    let mut c = named_context("default", "proj", true);
    c.meta.step_log.push(MetadataStepLog {
        description: "core::with_workdir \"/tmp\"".to_owned(),
        prompt: Some("wd(..tmp)".to_owned()),
    });
    c.env.push(("FOO".to_owned(), "BAR".to_owned()));
    let out = c.pretty_print().render();
    assert_eq!(
        out,
        "# name: proj\n# $ wd(..tmp)\n# ! core::with_workdir \"/tmp\"\n# frs_env: FOO=BAR\ntrue\n"
    );
}

#[test]
fn prompt_clean_context_is_bare_name() {
    let c = named_context("default", "proj", false);
    assert_eq!(c.pretty_prompt().render(), "(proj)");
}

#[test]
fn prompt_sanitizes_fragments() {
    let mut c = named_context("default", "proj", true);
    c.meta.step_log.push(MetadataStepLog {
        description: "d".to_owned(),
        prompt: Some("wd(..a\tb\nc d)".to_owned()),
    });
    c.meta.step_log.push(MetadataStepLog {
        description: "quiet".to_owned(),
        prompt: None,
    });
    assert_eq!(c.pretty_prompt().render(), "(proj) wd(..abc d)");
}

#[test]
fn prompt_dirty_other_namespace() {
    let c = named_context("team", "proj", true);
    assert_eq!(c.pretty_prompt().render(), "(team::proj)");
}

#[test]
fn shell_form_layout() {
    let mut c = named_context("default", "proj", false);
    c.meta.step_log.push(MetadataStepLog {
        description: "core::with_workdir \"/tmp\"".to_owned(),
        prompt: Some("wd(..tmp)".to_owned()),
    });
    let out = c.to_shell();
    let expected_head = "true\n# $ wd(..tmp)\n# ! core::with_workdir \"/tmp\"\n# FRS_META=\"";
    assert!(out.starts_with(expected_head), "got: {out}");
    assert!(out.ends_with("\"\n"));
}

#[test]
fn run_substitutes_innermost() {
    let base = get_base_context();
    let c = with_workdir(base, String::from("/tmp"));
    assert_eq!(render_run(&c, "make test"), "(cd /tmp;\n make test)");
}

#[test]
fn run_without_placeholder_keeps_template() {
    let c = named_context("default", "proj", false);
    assert_eq!(render_run(&c, "make"), "true");
}

#[test]
fn builder_names_resolve() {
    assert_eq!(resolve_builder("workdir"), Ok(BuilderKind::Workdir));
    assert_eq!(resolve_builder("path"), Ok(BuilderKind::SearchPath));
    assert_eq!(resolve_builder("env"), Ok(BuilderKind::EnvVar));
    assert_eq!(resolve_builder("command"), Ok(BuilderKind::RunCommand));
    assert_eq!(resolve_builder("docker"), Ok(BuilderKind::Docker));
    assert_eq!(resolve_builder("context"), Ok(BuilderKind::NamedContext));
    assert_eq!(resolve_builder("empty"), Ok(BuilderKind::Empty));
    assert_eq!(resolve_builder("compose"), Err(FrsError::UnknownOperation));
}

#[test]
fn inspect_source_decisions() {
    assert_eq!(
        inspect_source("default", "default"),
        Ok(InspectSource::SessionCurrent)
    );
    assert_eq!(inspect_source("default", "proj"), Ok(InspectSource::NamedRecord));
    assert_eq!(inspect_source("team", "proj"), Ok(InspectSource::NamedRecord));
    assert_eq!(inspect_source("team", "default"), Err(FrsError::Configuration));
}
