use commit_graph::transport::{
    batch_size_for, batches, check_health, endpoint_url, join, num_requests, repo_base_url, settle,
    Collector, Config, ConfigError, Endpoint, HealthCheckError, Settings,
};

#[test]
fn batch_size_defaults_to_all_keys() {
    assert_eq!(batch_size_for(Some(3), 10), 3);
    assert_eq!(batch_size_for(None, 10), 10);
    assert_eq!(batch_size_for(None, 0), 1);
    assert_eq!(batch_size_for(Some(1), 0), 1);
}

#[test]
fn requests_are_counted_by_batches() {
    assert_eq!(num_requests(0, 3), 0);
    assert_eq!(num_requests(1, 3), 1);
    assert_eq!(num_requests(3, 3), 1);
    assert_eq!(num_requests(4, 3), 2);
    assert_eq!(num_requests(10, 1), 10);
    assert_eq!(num_requests(usize::MAX, 2), usize::MAX / 2 + 1);
    assert_eq!(num_requests(usize::MAX, usize::MAX), 1);
}

#[test]
fn keys_are_cut_into_batches() {
    assert_eq!(
        batches(vec![1, 2, 3, 4, 5, 6, 7], Some(3)),
        vec![vec![1, 2, 3], vec![4, 5, 6], vec![7]]
    );
    assert_eq!(batches(vec![1, 2, 3, 4], Some(2)), vec![vec![1, 2], vec![3, 4]]);
    assert_eq!(batches(vec![1, 2, 3], None), vec![vec![1, 2, 3]]);
    assert_eq!(batches(vec![1, 2, 3], Some(10)), vec![vec![1, 2, 3]]);
    assert_eq!(batches(Vec::<u8>::new(), None), Vec::<Vec<u8>>::new());
    assert_eq!(batches(Vec::<u8>::new(), Some(4)), Vec::<Vec<u8>>::new());
    let cut = batches(vec!["a", "b", "c", "d", "e"], Some(2));
    assert_eq!(cut.len(), num_requests(5, 2));
}

#[test]
fn collector_takes_everything_in() {
    let mut collector = Collector::new();
    assert!(collector.0.is_empty());
    assert_eq!(collector.write(&[1, 2, 3]), 3);
    assert_eq!(collector.write(&[]), 0);
    assert_eq!(collector.write(&[4]), 1);
    assert_eq!(collector.0, vec![1, 2, 3, 4]);
}

#[test]
fn health_is_judged_by_code_and_text() {
    assert_eq!(check_health(200, "I_AM_ALIVE".to_string()), Ok(()));
    assert_eq!(
        check_health(503, "I_AM_ALIVE".to_string()),
        Err(HealthCheckError::StatusCode(503))
    );
    assert_eq!(
        check_health(200, "I_AM_ALIVE\n".to_string()),
        Err(HealthCheckError::UnexpectedResponse("I_AM_ALIVE\n".to_string()))
    );
    assert_eq!(
        check_health(404, "not found".to_string()),
        Err(HealthCheckError::StatusCode(404))
    );
}

fn config(base_url: Option<&str>, repo: Option<&str>, cache_path: Option<&str>) -> Config {
    Config {
        base_url: base_url.map(|s| s.to_string()),
        repo: repo.map(|s| s.to_string()),
        cache_path: cache_path.map(|s| s.to_string()),
        data_batch_size: Some(8),
        history_batch_size: None,
    }
}

#[test]
fn settings_need_url_repo_and_cache() {
    assert_eq!(
        settle(config(None, None, None), false),
        Err(ConfigError::NoBaseUrl)
    );
    assert_eq!(
        settle(config(Some("https://host/"), None, None), true),
        Err(ConfigError::NoRepo)
    );
    assert_eq!(
        settle(config(Some("https://host/"), Some("repo"), None), true),
        Err(ConfigError::NoCachePath)
    );
    assert_eq!(
        settle(config(Some("https://host/"), Some("repo"), Some("/cache")), false),
        Err(ConfigError::CachePathNotDirectory("/cache".to_string()))
    );
    assert_eq!(
        settle(config(Some("https://host/"), Some("repo"), Some("/cache")), true),
        Ok(Settings {
            base_url: "https://host/".to_string(),
            repo: "repo".to_string(),
            cache_path: "/cache".to_string(),
            data_batch_size: Some(8),
            history_batch_size: None,
            validate: true,
        })
    );
}

fn settings(base_url: &str, repo: &str) -> Settings {
    Settings {
        base_url: base_url.to_string(),
        repo: repo.to_string(),
        cache_path: "/cache".to_string(),
        data_batch_size: None,
        history_batch_size: None,
        validate: true,
    }
}

#[test]
fn urls_are_joined_to_the_base() {
    assert_eq!(
        join("https://host:8000/api/", "x/y").unwrap(),
        "https://host:8000/api/x/y"
    );
    assert_eq!(
        join("https://host:8000/api/v1", "/health_check").unwrap(),
        "https://host:8000/health_check"
    );
    assert_eq!(join("https://host/a/b", "c").unwrap(), "https://host/a/c");
    assert!(join("no scheme here", "x").is_err());
    assert!(!join("", "x").unwrap_err().reason.is_empty());
    assert_eq!(
        repo_base_url("https://host/api/", "fbsource").unwrap(),
        "https://host/api/fbsource/"
    );
}

#[test]
fn endpoints_are_under_the_repository() {
    let client = settings("https://host:8000/api/", "fbsource");
    assert_eq!(
        endpoint_url(&client, Endpoint::HealthCheck).unwrap(),
        "https://host:8000/health_check"
    );
    assert_eq!(
        endpoint_url(&client, Endpoint::Data).unwrap(),
        "https://host:8000/api/fbsource/eden/data"
    );
    assert_eq!(
        endpoint_url(&client, Endpoint::History).unwrap(),
        "https://host:8000/api/fbsource/eden/history"
    );
    let broken = settings("host without scheme", "fbsource");
    assert!(endpoint_url(&broken, Endpoint::HealthCheck).is_err());
    assert!(endpoint_url(&broken, Endpoint::Data).is_err());
    assert!(endpoint_url(&broken, Endpoint::History).is_err());
}
