use grove::render::{render_env, value, Context, RenderError};

fn ctx() -> Context {
    Context {
        slug: "feat_search".to_string(),
        ports: vec![("backend".to_string(), 24311), ("frontend".to_string(), 24310)],
        db_name: Some("app_feat_search".to_string()),
        main_worktree: "/work/app".to_string(),
        public_host: "localhost".to_string(),
        bind_host: "127.0.0.1".to_string(),
    }
}

#[test]
fn every_template_variable_renders() {
    let c = ctx();
    assert_eq!(value("app_{{ slug }}", &c).ok(), Some("app_feat_search".to_string()));
    assert_eq!(value("http://{{ host.public }}:{{port.frontend}}", &c).ok(), Some("http://localhost:24310".to_string()));
    assert_eq!(value("--host {{ host.bind }} --port {{ port.backend }}", &c).ok(), Some("--host 127.0.0.1 --port 24311".to_string()));
    assert_eq!(value("{{ db.name }}", &c).ok(), Some("app_feat_search".to_string()));
    assert_eq!(value("{{ main_worktree }}/.env", &c).ok(), Some("/work/app/.env".to_string()));
    assert_eq!(value("no markers at all", &c).ok(), Some("no markers at all".to_string()));
    assert_eq!(value("}} alone", &c).ok(), Some("}} alone".to_string()));
}

#[test]
fn each_template_error_says_what_is_wrong() {
    let mut c = ctx();
    match value("{{ slug", &c) {
        Err(e @ RenderError::Unterminated) => assert_eq!(e.message(), "a `{{` in a template has no closing `}}`"),
        _ => panic!("unterminated"),
    }
    match value("{{ port.db }}", &c) {
        Err(e @ RenderError::NoPort { .. }) => assert_eq!(e.message(), "no port named `db` in [ports].names"),
        _ => panic!("no such port"),
    }
    match value("{{ Slug }}", &c) {
        Err(e @ RenderError::Unknown { .. }) => {
            assert_eq!(e.message(), "unknown template variable `Slug`; run `grove --llm` for the ones available")
        },
        _ => panic!("unknown variable"),
    }
    c.db_name = None;
    match value("{{ db.name }}", &c) {
        Err(e @ RenderError::NoDatabase) => assert!(e.message().contains("db_name"), "{}", e.message()),
        _ => panic!("no database yet"),
    }
}

#[test]
fn an_env_file_keeps_its_secrets_and_takes_the_overrides() {
    let source = "AUTH__API_KEY=sk_live\nAPI_URL=http://localhost:8000\n  export CORS = *\nNOT AN ASSIGNMENT\n";
    let overrides = vec![
        ("API_URL".to_string(), "http://localhost:24311".to_string()),
        ("CORS".to_string(), "http://localhost:24310".to_string()),
        ("INSTANCE".to_string(), "feat_search".to_string()),
    ];

    let out = render_env(source, &overrides);

    assert_eq!(
        out,
        "AUTH__API_KEY=sk_live\nAPI_URL=http://localhost:24311\nCORS=http://localhost:24310\nNOT AN ASSIGNMENT\nINSTANCE=feat_search\n"
    );
}

#[test]
fn an_empty_source_gets_only_the_overrides() {
    let overrides = vec![("A".to_string(), "1".to_string()), ("B".to_string(), "2".to_string())];

    assert_eq!(render_env("", &overrides), "A=1\nB=2\n");
    assert_eq!(render_env("X=1", &vec![]), "X=1\n");
}
