use session_link::codec::encode;
use session_link::command::Command;
use session_link::framing::FrameBuffer;
use session_link::number::Number;
use session_link::relay::WriteQueue;

#[test]
fn frames_leave_in_the_order_they_came() {
    let mut queue = WriteQueue::new();
    assert_eq!(queue.next(), None);
    queue.enqueue(b"first\n".to_vec());
    queue.enqueue(b"second\n".to_vec());
    assert_eq!(queue.len(), 2);
    assert_eq!(queue.next(), Some(b"first\n".to_vec()));
    queue.enqueue(b"third\n".to_vec());
    assert_eq!(queue.next(), Some(b"second\n".to_vec()));
    assert_eq!(queue.next(), Some(b"third\n".to_vec()));
    assert_eq!(queue.next(), None);
    assert_eq!(queue.len(), 0);
}

#[test]
fn commands_and_probes_do_not_mix_on_the_wire() {
    let commands = [
        Command::ListParameters,
        Command::SetParameterValue { name: "gain".to_string(), value: Number::parse(b"3.5").unwrap() },
        Command::GetParameterValue { name: "line\nbreak".to_string() },
    ];
    let probe = b"{\"type\":\"Ping\"}\n".to_vec();
    let mut queue = WriteQueue::new();
    let mut handed_in = Vec::new();
    for command in &commands {
        let frame = encode(command);
        handed_in.push(frame.clone());
        queue.enqueue(frame);
        handed_in.push(probe.clone());
        queue.enqueue(probe.clone());
    }
    let mut wire = Vec::new();
    let mut writes = Vec::new();
    while let Some(frame) = queue.next() {
        wire.extend_from_slice(&frame);
        writes.push(frame);
    }
    assert_eq!(writes, handed_in);
    assert_eq!(FrameBuffer::new().push(&wire), handed_in);
}
