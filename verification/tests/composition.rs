//! The composition engine end to end: wrapping, provenance, and the
//! nesting order of the rendered command.

use frs::dispatch::render_run;
use frs::model::{get_base_context, Context, Metadata, MetadataStepLog};
use frs::ops::{with_command, with_docker, with_env, with_path, with_workdir};
use frs::placeholder::has_unique_placeholder;
use frs::store::prepare_save;

const PLACEHOLDER: &str = "(((( echo 'frs placeholder' ))))";

fn count_placeholders(t: &str) -> usize {
    t.matches(PLACEHOLDER).count()
}

#[test]
fn test_main() {
    let mut context = Context {
        meta: Metadata {
            namespace: "default".to_owned(),
            name: "".to_owned(),
            is_dirty: false,
            step_log: vec![],
        },
        env: Vec::new(),
        template: String::from("echo hello"),
    };

    let mut manipulations: Vec<Box<dyn FnOnce(Context) -> Context>> = vec![];

    manipulations.push(Box::new(|context| {
        with_workdir(context, String::from("/tmp"))
    }));
    manipulations.push(Box::new(|context| {
        with_path(context, String::from("/usr/bin"))
    }));
    manipulations.push(Box::new(|context| {
        with_env(context, String::from("FOO"), String::from("BAR"))
    }));
    manipulations.push(Box::new(|context| {
        with_command(context, String::from("echo $PWD"))
    }));

    for manipulation in manipulations {
        context = manipulation(context);
    }

    println!("{:?}", context);
    println!("{}", context.to_shell());
}

#[test]
fn base_context_shape() {
    let base = get_base_context();
    assert_eq!(base.meta.namespace, "default");
    assert_eq!(base.meta.name, "default");
    assert!(!base.meta.is_dirty);
    assert!(base.meta.step_log.is_empty());
    assert_eq!(base.env, vec![("FRS_VERSION".to_owned(), "0.1.0".to_owned())]);
    assert_eq!(base.template, PLACEHOLDER);
}

#[test]
fn scenario_nesting_order() {
    let base = get_base_context();
    assert_eq!(base.template, PLACEHOLDER);
    let c = with_workdir(base, String::from("/tmp"));
    let c = with_command(c, String::from("echo $PWD"));
    let run = render_run(&c, "ls -la");
    assert_eq!(run, "(cd /tmp;\n (echo $PWD;\n ls -la))");
}

#[test]
fn placeholder_stays_unique() {
    let mut c = get_base_context();
    assert_eq!(count_placeholders(&c.template), 1);
    c = with_workdir(c, String::from("/tmp"));
    assert_eq!(count_placeholders(&c.template), 1);
    c = with_path(c, String::from("/usr/bin"));
    assert_eq!(count_placeholders(&c.template), 1);
    c = with_env(c, String::from("FOO"), String::from("BAR"));
    assert_eq!(count_placeholders(&c.template), 1);
    c = with_command(c, String::from("echo $PWD"));
    assert_eq!(count_placeholders(&c.template), 1);
    c = with_docker(c, String::from("ubuntu"));
    assert_eq!(count_placeholders(&c.template), 1);
    assert!(has_unique_placeholder(&c.template));
}

#[test]
fn placeholder_in_argument_is_flagged() {
    let c = get_base_context();
    let c = with_command(c, format!("echo {}", PLACEHOLDER));
    assert!(!has_unique_placeholder(&c.template));
}

#[test]
fn order_and_count() {
    let mut c = get_base_context();
    c = with_workdir(c, String::from("/tmp"));
    c = with_path(c, String::from("/opt/tool/bin"));
    c = with_env(c, String::from("FOO"), String::from("BAR"));
    c = with_command(c, String::from("echo hi there"));
    c = with_docker(c, String::from("ubuntu"));
    assert_eq!(c.meta.step_log.len(), 5);
    let prompts: Vec<&str> = c
        .meta
        .step_log
        .iter()
        .map(|s| s.prompt.as_deref().unwrap())
        .collect();
    assert_eq!(
        prompts,
        vec!["wd(..tmp)", "toolchain(tool)", "env(FOO)", "exec(echo)", "ctr(ubuntu)"]
    );
    let descriptions: Vec<&str> = c.meta.step_log.iter().map(|s| s.description.as_str()).collect();
    assert_eq!(
        descriptions,
        vec![
            "core::with_workdir \"/tmp\"",
            "core::with_path \"/opt/tool/bin\"",
            "core::with_env \"FOO\"=\"BAR\"",
            "core::with_command \"echo hi there\"",
            "core::with_docker \"ubuntu\"",
        ]
    );
}

#[test]
fn path_without_bin_gets_plain_prompt() {
    let c = get_base_context();
    let c = with_path(c, String::from("/usr/local/share"));
    assert_eq!(c.meta.step_log[0].prompt.as_deref(), Some("path(share)"));
}

#[test]
fn dirty_flag() {
    let base = get_base_context();
    assert!(!base.meta.is_dirty);
    let c = with_workdir(base, String::from("/tmp"));
    assert!(c.meta.is_dirty);
    let saved = prepare_save(c, String::from("team"), String::from("build"));
    assert!(!saved.meta.is_dirty);
    assert_eq!(saved.meta.namespace, "team");
    assert_eq!(saved.meta.name, "build");
}

#[test]
fn env_wrap_exports_variable() {
    let c = get_base_context();
    let c = with_env(c, String::from("KEY"), String::from("VAL"));
    assert_eq!(
        c.template,
        format!("(export KEY=VAL;\n {})", PLACEHOLDER)
    );
}

#[test]
fn docker_wrap_runs_container() {
    let c = get_base_context();
    let c = with_docker(c, String::from("alpine"));
    assert_eq!(c.template, format!("(docker run alpine {})", PLACEHOLDER));
}

#[test]
fn workdir_trailing_slash_prompt() {
    let c = get_base_context();
    let c = with_workdir(c, String::from("/srv/data/"));
    assert_eq!(c.meta.step_log[0].prompt.as_deref(), Some("wd(..data)"));
}
