use bf::channel::Channel;

#[test]
fn channel_reads_from_the_front() {
    let mut channel = Channel::with_input(vec![1, 2, 3, 4]);
    assert!(channel.is_closed());
    assert_eq!(channel.available(), 4);
    assert_eq!(channel.read(1), Some(1));
    assert_eq!(channel.read(2), Some(3));
    assert_eq!(channel.available(), 1);
    assert_eq!(channel.read(0), None);
    assert_eq!(channel.available(), 1);
    assert_eq!(channel.read(5), Some(4));
    assert_eq!(channel.available(), 0);
    assert_eq!(channel.read(1), None);
}

#[test]
fn channel_takes_input_until_it_is_closed() {
    let mut channel = Channel::new();
    assert!(!channel.is_closed());
    assert_eq!(channel.available(), 0);
    channel.feed(&vec![7, 8]);
    assert_eq!(channel.available(), 2);
    assert_eq!(channel.read(1), Some(7));
    channel.feed(&vec![9]);
    assert_eq!(channel.available(), 2);
    channel.close();
    channel.feed(&vec![10]);
    assert_eq!(channel.available(), 2);
    assert_eq!(channel.read(2), Some(9));
}

#[test]
fn channel_collects_output_until_it_is_taken() {
    let mut channel = Channel::new();
    channel.write(65, 3);
    channel.write(66, 0);
    channel.write(67, 1);
    assert_eq!(channel.output(), &vec![65, 65, 65, 67]);
    assert_eq!(channel.take_output(), vec![65, 65, 65, 67]);
    assert!(channel.output().is_empty());
    channel.write(1, 1);
    assert_eq!(channel.take_output(), vec![1]);
}
