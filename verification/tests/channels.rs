use screenshot_mover::channel::{EventChannel, TryReceiveError};
use screenshot_mover::screenshot::{ListenerError, ScreenshotListener};

#[test]
fn try_receive_on_an_empty_channel_says_empty() {
    let mut channel: EventChannel<String> = EventChannel::new();
    assert_eq!(channel.try_receive(), Err(TryReceiveError::Empty));
    assert_eq!(channel.try_receive(), Err(TryReceiveError::Empty));
    assert_eq!(channel.len(), 0);
}

#[test]
fn events_come_out_in_the_order_they_went_in() {
    let mut channel: EventChannel<u32> = EventChannel::new();
    assert_eq!(channel.send(3), Ok(()));
    assert_eq!(channel.send(1), Ok(()));
    assert_eq!(channel.send(2), Ok(()));
    assert_eq!(channel.len(), 3);
    assert_eq!(channel.try_receive(), Ok(3));
    assert_eq!(channel.try_receive(), Ok(1));
    assert_eq!(channel.send(7), Ok(()));
    assert_eq!(channel.try_receive(), Ok(2));
    assert_eq!(channel.try_receive(), Ok(7));
    assert_eq!(channel.try_receive(), Err(TryReceiveError::Empty));
}

#[test]
fn send_without_a_receiver_gives_the_value_back() {
    let mut channel: EventChannel<String> = EventChannel::new();
    channel.drop_receiver();
    assert_eq!(
        channel.send("/s/a.png".to_string()),
        Err(ListenerError::Sender("/s/a.png".to_string()))
    );
    assert_eq!(channel.len(), 0);
}

#[test]
fn dropping_the_receiver_drops_what_is_pending() {
    let mut channel: EventChannel<u32> = EventChannel::new();
    assert_eq!(channel.send(1), Ok(()));
    assert_eq!(channel.send(2), Ok(()));
    channel.drop_receiver();
    assert_eq!(channel.len(), 0);
    assert_eq!(channel.try_receive(), Err(TryReceiveError::Disconnected));
}

#[test]
fn pending_events_outlive_the_sender() {
    let mut channel: EventChannel<u32> = EventChannel::new();
    assert_eq!(channel.send(1), Ok(()));
    assert_eq!(channel.send(2), Ok(()));
    channel.drop_sender();
    assert_eq!(channel.len(), 2);
    assert_eq!(channel.try_receive(), Ok(1));
    assert_eq!(channel.try_receive(), Ok(2));
    assert_eq!(channel.try_receive(), Err(TryReceiveError::Disconnected));
}

#[test]
fn send_after_the_sender_is_gone_fails() {
    let mut channel: EventChannel<u32> = EventChannel::new();
    channel.drop_sender();
    assert_eq!(channel.send(5), Err(ListenerError::Sender(5)));
    assert_eq!(channel.try_receive(), Err(TryReceiveError::Disconnected));
}

#[test]
fn forward_queues_all_events_in_order() {
    let mut channel: EventChannel<String> = EventChannel::new();
    assert_eq!(channel.send("/s/0".to_string()), Ok(()));
    let events = vec!["/s/1".to_string(), "/s/2".to_string()];
    assert_eq!(ScreenshotListener::forward(&events, &mut channel), Ok(()));
    assert_eq!(channel.try_receive(), Ok("/s/0".to_string()));
    assert_eq!(channel.try_receive(), Ok("/s/1".to_string()));
    assert_eq!(channel.try_receive(), Ok("/s/2".to_string()));
    assert_eq!(channel.try_receive(), Err(TryReceiveError::Empty));
}

#[test]
fn forward_to_a_closed_channel_fails_with_the_first_event() {
    let mut channel: EventChannel<String> = EventChannel::new();
    channel.drop_receiver();
    let events = vec!["/s/1".to_string(), "/s/2".to_string()];
    assert_eq!(
        ScreenshotListener::forward(&events, &mut channel),
        Err(ListenerError::Sender("/s/1".to_string()))
    );
    assert_eq!(channel.len(), 0);
}

#[test]
fn forward_of_nothing_succeeds_on_a_closed_channel() {
    let mut channel: EventChannel<String> = EventChannel::new();
    channel.drop_receiver();
    assert_eq!(ScreenshotListener::forward(&Vec::new(), &mut channel), Ok(()));
}
