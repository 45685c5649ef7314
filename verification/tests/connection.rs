use mqttui::connection::{
    client_settings, credentials, generate_client_id, push_lower_hex, settings_with_id,
    settings_with_suffix, Broker, Link, REQUEST_CAPACITY, WEBSOCKET_PORT,
};

fn tcp() -> Broker {
    Broker::Tcp { host: "localhost".to_string(), port: 1883 }
}

#[test]
fn lower_hex_of_small_numbers() {
    for (value, expected) in [(0, "0"), (1, "1"), (9, "9"), (10, "a"), (15, "f")] {
        let mut text = String::new();
        push_lower_hex(&mut text, value);
        assert_eq!(text, expected);
    }
}

#[test]
fn lower_hex_has_no_leading_zeros() {
    for (value, expected) in
        [(16, "10"), (255, "ff"), (256, "100"), (0xabc, "abc"), (0x0123_4567, "1234567")]
    {
        let mut text = String::new();
        push_lower_hex(&mut text, value);
        assert_eq!(text, expected);
    }
}

#[test]
fn lower_hex_of_the_largest_number() {
    let mut text = String::new();
    push_lower_hex(&mut text, u32::MAX);
    assert_eq!(text, "ffffffff");
}

#[test]
fn lower_hex_goes_behind_what_is_there() {
    let mut text = "0x".to_string();
    push_lower_hex(&mut text, 0xdead_beef);
    assert_eq!(text, "0xdeadbeef");
}

#[test]
fn lower_hex_is_what_formatting_gives() {
    for value in [0, 7, 16, 4095, 4096, 65535, 0x89ab_cdef, u32::MAX - 1] {
        let mut text = String::new();
        push_lower_hex(&mut text, value);
        assert_eq!(text, format!("{:x}", value));
    }
}

#[test]
fn generated_client_id_has_prefix_and_number() {
    assert_eq!(generate_client_id(0), "mqttui-0");
    assert_eq!(generate_client_id(0xdead_beef), "mqttui-deadbeef");
    assert_eq!(generate_client_id(0x1f), "mqttui-1f");
    assert_eq!(generate_client_id(u32::MAX), "mqttui-ffffffff");
}

#[test]
fn credentials_need_user_name_and_password() {
    let name = Some("user".to_string());
    let secret = Some("pass".to_string());
    assert_eq!(credentials(&name, &secret), Some(("user".to_string(), "pass".to_string())));
    assert_eq!(credentials(&name, &None), None);
    assert_eq!(credentials(&None, &secret), None);
    assert_eq!(credentials(&None, &None), None);
}

#[test]
fn settings_for_tcp() {
    let settings = settings_with_id(&tcp(), "me".to_string(), &None, &None);
    assert_eq!(settings.link, Link::Tcp);
    assert_eq!(settings.host, "localhost");
    assert_eq!(settings.port, 1883);
    assert_eq!(settings.client_id, "me");
    assert_eq!(settings.credentials, None);
    assert_eq!(settings.max_packet_size, usize::MAX);
    assert_eq!(settings.request_capacity, 10);
    assert_eq!(REQUEST_CAPACITY, 10);
}

#[test]
fn settings_for_ssl() {
    let broker = Broker::Ssl { host: "broker.example".to_string(), port: 8883 };
    let settings = settings_with_id(&broker, "me".to_string(), &None, &None);
    assert_eq!(settings.link, Link::Tls);
    assert_eq!(settings.host, "broker.example");
    assert_eq!(settings.port, 8883);
}

#[test]
fn settings_for_websockets() {
    assert_eq!(WEBSOCKET_PORT, 666);
    let broker = Broker::WebSocket("ws://broker.example:9001/mqtt".to_string());
    let settings = settings_with_id(&broker, "me".to_string(), &None, &None);
    assert_eq!(settings.link, Link::Ws);
    assert_eq!(settings.host, "ws://broker.example:9001/mqtt");
    assert_eq!(settings.port, 666);

    let broker = Broker::WebSocketSsl("wss://broker.example/mqtt".to_string());
    let settings = settings_with_id(&broker, "me".to_string(), &None, &None);
    assert_eq!(settings.link, Link::Wss);
    assert_eq!(settings.host, "wss://broker.example/mqtt");
    assert_eq!(settings.port, 666);
}

#[test]
fn settings_with_login() {
    let name = Some("user".to_string());
    let secret = Some("pass".to_string());
    let settings = settings_with_id(&tcp(), "me".to_string(), &name, &secret);
    assert_eq!(settings.credentials, Some(("user".to_string(), "pass".to_string())));
    let settings = settings_with_id(&tcp(), "me".to_string(), &name, &None);
    assert_eq!(settings.credentials, None);
    let settings = settings_with_id(&tcp(), "me".to_string(), &None, &secret);
    assert_eq!(settings.credentials, None);
}

#[test]
fn settings_keep_a_given_client_id() {
    let given = Some("my client".to_string());
    let settings = settings_with_suffix(&tcp(), &given, 0xabc, &None, &None);
    assert_eq!(settings.client_id, "my client");
    let settings = client_settings(&tcp(), &given, &None, &None);
    assert_eq!(settings.client_id, "my client");
    assert_eq!(settings.host, "localhost");
    assert_eq!(settings.port, 1883);
}

#[test]
fn settings_generate_a_client_id_from_the_suffix() {
    let settings = settings_with_suffix(&tcp(), &None, 0xabc, &None, &None);
    assert_eq!(settings.client_id, "mqttui-abc");
    let settings = settings_with_suffix(&tcp(), &None, 0, &None, &None);
    assert_eq!(settings.client_id, "mqttui-0");
}

#[test]
fn settings_generate_a_client_id_at_random() {
    let name = Some("user".to_string());
    let secret = Some("pass".to_string());
    for _ in 0..32 {
        let settings = client_settings(&tcp(), &None, &name, &secret);
        let digits = settings.client_id.strip_prefix("mqttui-").unwrap();
        assert!((1..=8).contains(&digits.len()));
        let suffix = u32::from_str_radix(digits, 16).unwrap();
        assert_eq!(settings.client_id, format!("mqttui-{:x}", suffix));
        assert_eq!(settings.link, Link::Tcp);
        assert_eq!(settings.credentials, Some(("user".to_string(), "pass".to_string())));
        assert_eq!(settings.max_packet_size, usize::MAX);
        assert_eq!(settings.request_capacity, 10);
    }
}
