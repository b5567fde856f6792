use docmill::config::{
    default_models_dir, models_candidates, CliOverrides, EngineKind, EnginePlan, Environment,
    ImgOcrConfig,
};
use docmill::postprocess::OutputMode;

/// An environment in which only the models directory is known.
fn bare() -> Environment {
    Environment {
        engine: None,
        mode: None,
        lang: None,
        endpoint: None,
        model: None,
        api_key: None,
        prompt: None,
        min_px: None,
        cache_dir: None,
        timeout: None,
        max_retries: None,
        models_dir: None,
        extra_body: None,
        xdg_cache_home: None,
        home: None,
        local_app_data: None,
        user_profile: None,
        found_models_dir: ".models".to_string(),
    }
}

fn resolve(cli: CliOverrides) -> Result<ImgOcrConfig, String> {
    ImgOcrConfig::resolve(cli, &bare())
}

#[test]
fn defaults_are_local_markers_en() {
    let cfg = resolve(CliOverrides {
        engine: Some("local".into()),
        mode: Some("markers".into()),
        lang: Some("en".into()),
        min_px: Some("2500".into()),
        timeout: Some("120".into()),
        ..Default::default()
    })
    .unwrap();
    assert_eq!(cfg.engines, vec![EngineKind::Local]);
    assert_eq!(cfg.mode, OutputMode::Markers);
    assert!(!cfg.remote_first());
    assert_eq!(cfg.min_pixels, 2500);
}

#[test]
fn engine_chain_parses_in_order_and_dedups() {
    let cfg = resolve(CliOverrides {
        engine: Some("vlm,local,vlm".into()),
        endpoint: Some("http://h/v1".into()),
        model: Some("m".into()),
        ..Default::default()
    })
    .unwrap();
    assert_eq!(cfg.engines, vec![EngineKind::Vlm, EngineKind::Local]);
    assert!(cfg.remote_first());
}

#[test]
fn vlm_without_endpoint_or_model_errors_up_front() {
    let err = resolve(CliOverrides {
        engine: Some("vlm".into()),
        model: Some("m".into()),
        endpoint: None,
        ..Default::default()
    });
    assert!(err.is_err());
    let err = resolve(CliOverrides {
        engine: Some("paddle".into()),
        endpoint: Some("http://h:8866/predict/ocr_system".into()),
        ..Default::default()
    });
    assert!(err.is_ok(), "paddle needs only the endpoint");
}

#[test]
fn bad_values_error() {
    assert!(resolve(CliOverrides { engine: Some("tesseract".into()), ..Default::default() })
        .is_err());
    assert!(resolve(CliOverrides { mode: Some("fancy".into()), ..Default::default() }).is_err());
    assert!(resolve(CliOverrides { lang: Some("de".into()), ..Default::default() }).is_err());
    assert!(resolve(CliOverrides { min_px: Some("lots".into()), ..Default::default() }).is_err());
}

#[test]
fn errors_name_the_flag_and_the_value() {
    let error = |cli: CliOverrides| resolve(cli).unwrap_err();
    assert_eq!(
        error(CliOverrides { engine: Some("a\"b".into()), ..Default::default() }),
        "--img-ocr-engine: \"a\\\"b\" is not local|vlm|paddle"
    );
    assert_eq!(
        error(CliOverrides { mode: Some("fancy".into()), ..Default::default() }),
        "--img-ocr-mode: \"fancy\" is not fence|markers|text|quote|placeholder"
    );
    assert_eq!(
        error(CliOverrides { lang: Some("de".into()), ..Default::default() }),
        "--img-ocr-lang: \"de\" is not en|ch"
    );
    assert_eq!(
        error(CliOverrides { min_px: Some("lots".into()), ..Default::default() }),
        "--img-ocr-min-px: \"lots\" is not a number"
    );
    assert_eq!(
        error(CliOverrides { timeout: Some("-1".into()), ..Default::default() }),
        "--img-ocr-timeout: \"-1\" is not a number of seconds"
    );
    assert_eq!(
        error(CliOverrides {
            engine: Some("vlm".into()),
            endpoint: Some("u".into()),
            ..Default::default()
        }),
        "vlm engine needs --img-ocr-model or DOCMILL_MODEL"
    );
    assert_eq!(
        error(CliOverrides { engine: Some("paddle".into()), ..Default::default() }),
        "paddle engine needs --img-ocr-endpoint or DOCMILL_ENDPOINT"
    );
}

#[test]
fn flags_go_before_the_environment_and_that_before_defaults() {
    let mut env = bare();
    env.mode = Some("quote".to_string());
    env.lang = Some("ch".to_string());
    env.home = Some("/home/u".to_string());
    let cfg = ImgOcrConfig::resolve(
        CliOverrides { lang: Some("en".into()), ..Default::default() },
        &env,
    )
    .unwrap();
    assert_eq!(cfg.mode, OutputMode::Quote);
    assert_eq!(cfg.lang, "en");
    assert_eq!(cfg.engines, vec![EngineKind::Local]);
    assert_eq!(cfg.min_pixels, 2500);
    assert_eq!(cfg.timeout_secs, 120);
    assert_eq!(cfg.max_retries, 3);
    assert_eq!(cfg.cache_dir.as_deref(), Some("/home/u/.cache/docmill"));
    assert_eq!(cfg.models_dir, ".models");
}

#[test]
fn runners_follow_the_chain() {
    let cfg = resolve(CliOverrides {
        engine: Some(" PADDLE ,ppocr".into()),
        endpoint: Some("http://h".into()),
        cache_dir: Some("/c".into()),
        ..Default::default()
    })
    .unwrap();
    let (plans, runner, cache) = cfg.build_runner().unwrap();
    assert_eq!(runner.slots.len(), 2);
    assert!(matches!(plans[0], EnginePlan::Paddle(_)), "{plans:?}");
    assert!(matches!(plans[1], EnginePlan::Local { .. }), "{plans:?}");
    assert_eq!(cache.dir.as_deref(), Some("/c"));
    let off = resolve(CliOverrides {
        cache_dir: Some("/c".into()),
        no_cache: true,
        ..Default::default()
    })
    .unwrap();
    assert_eq!(off.build_runner().unwrap().2.dir, None);
}

#[test]
fn extra_members_are_an_object() {
    let mut env = bare();
    env.extra_body = Some("{\"seed\":7}".to_string());
    let cfg = ImgOcrConfig::resolve(CliOverrides::default(), &env).unwrap();
    assert_eq!(cfg.extra_body.len(), 1);
    env.extra_body = Some("[1]".to_string());
    assert!(ImgOcrConfig::resolve(CliOverrides::default(), &env).is_err());
}

#[test]
fn models_are_looked_for_near_the_program() {
    let places = models_candidates(&Some("/opt/docmill/bin".to_string()));
    assert_eq!(places, [".models", "/opt/docmill/bin/.models", "/opt/docmill/.models"]);
    assert_eq!(default_models_dir(&places, &vec![false, false, true]), "/opt/docmill/.models");
    assert_eq!(default_models_dir(&places, &vec![true, true, true]), ".models");
    assert_eq!(default_models_dir(&places, &vec![false, false, false]), ".models");
    assert_eq!(models_candidates(&Some("/".to_string())), [".models", "/.models"]);
    assert_eq!(models_candidates(&None), [".models"]);
}
