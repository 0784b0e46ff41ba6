use ffgl_plugins::mqtt::{
    MqttHandle, Notification, Reaction, CLIENT_ID, KEEP_ALIVE_SECS, QUEUE,
};

#[test]
fn listener_settings() {
    let m = MqttHandle::new("broker.local", 1883, "stage/pulse");
    assert_eq!(m.host, "broker.local");
    assert_eq!(m.port, 1883);
    assert_eq!(m.topic, "stage/pulse");
    assert!(!m.shutdown);
    assert!(m.joinable);
    assert_eq!(CLIENT_ID, "pulsebeam");
    assert_eq!(KEEP_ALIVE_SECS, 30);
    assert_eq!(QUEUE, 10);
}

#[test]
fn messages_trigger_until_the_listener_is_told_to_end() {
    assert_eq!(MqttHandle::on_notification(false, Notification::Published), Reaction::Trigger);
    assert_eq!(MqttHandle::on_notification(false, Notification::Other), Reaction::Listen);
    assert_eq!(MqttHandle::on_notification(true, Notification::Published), Reaction::Stop);
    assert_eq!(MqttHandle::on_notification(true, Notification::Other), Reaction::Stop);
}

#[test]
fn listener_is_waited_for_once() {
    let mut m = MqttHandle::new("h", 1, "t");
    assert!(m.close());
    assert!(m.shutdown);
    assert!(!m.close());
    assert!(m.shutdown);
    assert_eq!(m.topic, "t");
}
