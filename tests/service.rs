use proxy_pool::{ApiDoc, CliConfig, Listen, BASE_PATH};

#[test]
fn api_paths_get_the_service_prefix() {
    assert_eq!(ApiDoc::with_base("/add"), "/api/service/add");
    let paths = vec!["/add".to_string(), "/search".to_string(), String::new()];
    assert_eq!(
        ApiDoc::prefix_paths(&paths),
        vec!["/api/service/add".to_string(), "/api/service/search".to_string(), BASE_PATH.to_string()]
    );
}

#[test]
fn cli_defaults() {
    let none = CliConfig { authen: None, host: None, api_host: None };
    assert_eq!(none.host_or_default(), "0.0.0.0:8100");
    assert_eq!(none.api_host_or_default(), "0.0.0.0:3000");
    let set = CliConfig {
        authen: Some("Basic dXNlcg==".to_string()),
        host: Some("127.0.0.1:1".to_string()),
        api_host: Some("127.0.0.1:2".to_string()),
    };
    assert_eq!(set.host_or_default(), "127.0.0.1:1");
    assert_eq!(set.api_host_or_default(), "127.0.0.1:2");
}

#[test]
fn listen_keeps_its_host() {
    assert_eq!(Listen::new("0.0.0.0:8100".to_string()).host, "0.0.0.0:8100");
}
