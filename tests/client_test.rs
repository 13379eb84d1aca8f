use yorkie::client::{Client, ClientOptions};

#[test]
fn client_new_has_random_key() {
    let cli = Client::new("http://[::1]:11101".to_string());
    assert_eq!(cli.is_active, false);
    assert_eq!(cli.options.key.len(), 36);
    let hyphens: Vec<usize> = cli
        .options
        .key
        .char_indices()
        .filter(|(_, c)| *c == '-')
        .map(|(i, _)| i)
        .collect();
    assert_eq!(hyphens, vec![8, 13, 18, 23]);
    assert_eq!(cli.options.sync_loop_duration, 50);
    assert_eq!(cli.options.reconnect_stream_delay, 1000);
    let other = Client::new("http://[::1]:11101".to_string());
    assert_ne!(cli.options.key, other.options.key);
}

#[test]
fn client_with_options_keeps_settings() {
    let cli = Client::with_options(
        "http://[::1]:11101".to_string(),
        ClientOptions {
            key: "test".to_string(),
            sync_loop_duration: 50,
            reconnect_stream_delay: 1000,
        },
    );
    assert_eq!(cli.options.key, "test");
    assert_eq!(cli.rpc_address, "http://[::1]:11101");
    assert_eq!(cli.is_active, false);
}

#[test]
fn client_activation_cycle() {
    let mut cli = Client::with_options(
        "http://[::1]:11101".to_string(),
        ClientOptions {
            key: "test".to_string(),
            sync_loop_duration: 50,
            reconnect_stream_delay: 1000,
        },
    );
    assert_eq!(cli.activation_request(), Some("test".to_string()));
    assert_eq!(cli.deactivation_request(), None);
    cli.activated(vec![1, 2, 3]);
    assert!(cli.is_active);
    assert_eq!(cli.activation_request(), None);
    assert_eq!(cli.deactivation_request(), Some(vec![1, 2, 3]));
    cli.deactivated();
    assert!(!cli.is_active);
    assert_eq!(cli.deactivation_request(), None);
    assert_eq!(cli.activation_request(), Some("test".to_string()));
}
