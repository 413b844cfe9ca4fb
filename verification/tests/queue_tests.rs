use river_gateway::queue::{ChannelNotification, MessageQueue};

fn note(channel: &str, id: &str) -> ChannelNotification {
    ChannelNotification { channel: channel.to_string(), id: id.to_string() }
}

#[test]
fn test_new_queue_is_empty() {
    let queue = MessageQueue::new();
    assert!(queue.is_empty());
    assert_eq!(queue.len(), 0);
}

#[test]
fn test_push_and_drain() {
    let mut queue = MessageQueue::new();
    queue.push(note("discord_general", "1"));
    queue.push(note("discord_general", "2"));
    assert!(!queue.is_empty());
    assert_eq!(queue.len(), 2);
    let notifications = queue.drain();
    assert_eq!(notifications.len(), 2);
    assert_eq!(notifications[0].id, "1");
    assert_eq!(notifications[1].id, "2");
    assert!(queue.is_empty());
}

#[test]
fn test_drain_empty_queue() {
    let mut queue = MessageQueue::default();
    let notifications = queue.drain();
    assert!(notifications.is_empty());
}

#[test]
fn test_fifo_order() {
    let mut queue = MessageQueue::new();
    for i in 0..5 {
        queue.push(note(&format!("channel_{i}"), &i.to_string()));
    }
    let notifications = queue.drain();
    for (i, n) in notifications.iter().enumerate() {
        assert_eq!(n.id, i.to_string());
        assert_eq!(n.channel, format!("channel_{i}"));
    }
}
