use netconf_rs::framing::frame_payload;
use netconf_rs::framing::FrameBuffer;
use netconf_rs::framing::FrameError;
use netconf_rs::transport::channel::ByteChannel;
use netconf_rs::transport::channel::ChannelError;
use netconf_rs::transport::channel::Loopback;
use netconf_rs::transport::framed::FramedTransport;
use netconf_rs::transport::framed::READ_CHUNK;
use netconf_rs::transport::Transport;
use netconf_rs::transport::TransportError;

/// Hands out `incoming` in the given pieces, then fails or reports the end
/// of the stream; accepts at most `accept` bytes per write.
struct Pieces {
    pieces: Vec<Vec<u8>>,
    fail_at_end: bool,
    accept: usize,
    outgoing: Vec<u8>,
    reads: usize,
    writes: usize,
}

impl Pieces {
    fn new(pieces: Vec<Vec<u8>>) -> Pieces {
        Pieces { pieces, fail_at_end: false, accept: usize::MAX, outgoing: Vec::new(), reads: 0, writes: 0 }
    }
}

impl ByteChannel for Pieces {
    fn read(&mut self, max: usize) -> Result<Vec<u8>, ChannelError> {
        self.reads += 1;
        if self.pieces.is_empty() {
            return if self.fail_at_end { Err(ChannelError) } else { Ok(Vec::new()) };
        }
        if self.pieces[0].len() <= max {
            Ok(self.pieces.remove(0))
        } else {
            let rest = self.pieces[0].split_off(max);
            let head = std::mem::replace(&mut self.pieces[0], rest);
            Ok(head)
        }
    }

    fn write(&mut self, bytes: &[u8]) -> Result<usize, ChannelError> {
        self.writes += 1;
        if self.accept == 0 {
            return Err(ChannelError);
        }
        let n = bytes.len().min(self.accept);
        self.outgoing.extend_from_slice(&bytes[..n]);
        Ok(n)
    }
}

#[test]
fn loopback_round_trip_returns_payload() {
    let mut transport = FramedTransport::new(Loopback::new());
    assert_eq!(transport.write_message("<rpc message-id=\"1\"><get/></rpc>"), Ok(()));
    assert_eq!(transport.read_message(), Ok(String::from("<rpc message-id=\"1\"><get/></rpc>")));
    assert_eq!(transport.buffered(), 0);
    assert_eq!(transport.into_channel().available(), 0);
}

#[test]
fn loopback_round_trip_of_long_payload() {
    let payload: String = std::iter::repeat("<a>é</a>").take(200).collect();
    let mut transport = FramedTransport::new(Loopback::new());
    assert_eq!(transport.write_message(&payload), Ok(()));
    assert_eq!(transport.read_message(), Ok(payload));
}

#[test]
fn loopback_round_trip_trims_enclosing_whitespace() {
    let mut transport = FramedTransport::new(Loopback::new());
    assert_eq!(transport.write_message("\n  <a> b </a>\t\n"), Ok(()));
    assert_eq!(transport.read_message(), Ok(String::from("<a> b </a>")));
}

#[test]
fn loopback_round_trip_of_empty_message() {
    let mut transport = FramedTransport::new(Loopback::new());
    assert_eq!(transport.write_message(""), Ok(()));
    assert_eq!(transport.read_message(), Ok(String::new()));
}

#[test]
fn payload_ending_in_half_marker_is_cut_short() {
    let mut transport = FramedTransport::new(Loopback::new());
    assert_eq!(transport.write_message("<a/>]]>"), Ok(()));
    assert_eq!(transport.read_message(), Ok(String::from("<a/>")));
    assert_eq!(transport.buffered(), 3);
}

#[test]
fn loopback_reads_what_was_written_in_order() {
    let mut channel = Loopback::new();
    assert_eq!(channel.write(b"abcdef"), Ok(6));
    assert_eq!(channel.available(), 6);
    assert_eq!(channel.read(4), Ok(b"abcd".to_vec()));
    assert_eq!(channel.write(b"gh"), Ok(2));
    assert_eq!(channel.read(10), Ok(b"efgh".to_vec()));
    assert_eq!(channel.read(10), Ok(Vec::new()));
    assert_eq!(channel.available(), 0);
}

#[test]
fn read_message_at_every_split_of_the_frame() {
    let wire = b"<rpc-reply><ok/></rpc-reply>]]>]]>".to_vec();
    for cut in 1..wire.len() {
        let pieces = vec![wire[..cut].to_vec(), wire[cut..].to_vec()];
        let mut transport = FramedTransport::new(Pieces::new(pieces));
        assert_eq!(transport.read_message(), Ok(String::from("<rpc-reply><ok/></rpc-reply>")));
        assert_eq!(transport.buffered(), 0);
        assert_eq!(transport.into_channel().reads, 2);
    }
}

#[test]
fn read_message_byte_by_byte() {
    let wire = b"<ok/>]]>]]>".to_vec();
    let pieces: Vec<Vec<u8>> = wire.iter().map(|b| vec![*b]).collect();
    let mut transport = FramedTransport::new(Pieces::new(pieces));
    assert_eq!(transport.read_message(), Ok(String::from("<ok/>")));
    assert_eq!(transport.into_channel().reads, wire.len());
}

#[test]
fn frame_buffer_at_every_split_of_the_frame() {
    let wire = frame_payload("<data>x</data>");
    for cut in 0..wire.len() {
        let mut buffer = FrameBuffer::new();
        assert_eq!(buffer.extend(&wire[..cut]), Ok(()));
        assert_eq!(buffer.take_message(), None);
        assert_eq!(buffer.len(), cut);
        assert_eq!(buffer.extend(&wire[cut..]), Ok(()));
        assert_eq!(buffer.take_message(), Some(Ok(String::from("<data>x</data>"))));
        assert_eq!(buffer.len(), 0);
    }
}

#[test]
fn two_messages_in_one_read_come_out_in_order() {
    let pieces = vec![b"<one/>]]>]]><two/>]]>]]><thr".to_vec()];
    let mut transport = FramedTransport::new(Pieces::new(pieces));
    assert_eq!(transport.read_message(), Ok(String::from("<one/>")));
    assert_eq!(transport.buffered(), 16);
    assert_eq!(transport.read_message(), Ok(String::from("<two/>")));
    assert_eq!(transport.buffered(), 4);
    assert_eq!(transport.into_channel().reads, 1);
}

#[test]
fn two_messages_in_several_reads_come_out_in_order() {
    let wire = b"<one/>]]>]]><two/>]]>]]>".to_vec();
    for step in 1..wire.len() {
        let pieces: Vec<Vec<u8>> = wire.chunks(step).map(|c| c.to_vec()).collect();
        let mut transport = FramedTransport::new(Pieces::new(pieces));
        assert_eq!(transport.read_message(), Ok(String::from("<one/>")));
        assert_eq!(transport.read_message(), Ok(String::from("<two/>")));
        assert_eq!(transport.buffered(), 0);
    }
}

#[test]
fn read_message_asks_for_at_most_a_chunk() {
    let mut wire = vec![b'a'; 3 * READ_CHUNK];
    wire.extend_from_slice(b"]]>]]>");
    let mut transport = FramedTransport::new(Pieces::new(vec![wire]));
    let reply = transport.read_message().unwrap();
    assert_eq!(reply.len(), 3 * READ_CHUNK);
    assert_eq!(transport.into_channel().reads, 4);
}

#[test]
fn read_message_fails_when_peer_closes_mid_message() {
    let mut transport = FramedTransport::new(Pieces::new(vec![b"<rpc-reply>".to_vec()]));
    assert_eq!(transport.read_message(), Err(TransportError::ConnectionClosed));
    assert_eq!(transport.buffered(), 11);
}

#[test]
fn read_message_fails_when_channel_fails() {
    let mut channel = Pieces::new(vec![b"<rpc-reply>]]>]]".to_vec()]);
    channel.fail_at_end = true;
    let mut transport = FramedTransport::new(channel);
    assert_eq!(transport.read_message(), Err(TransportError::Io));
    assert_eq!(transport.buffered(), 16);
}

#[test]
fn read_message_reports_invalid_utf8() {
    let pieces = vec![vec![0xc3, 0x28, b']', b']', b'>', b']', b']', b'>', b'<']];
    let mut transport = FramedTransport::new(Pieces::new(pieces));
    assert_eq!(transport.read_message(), Err(TransportError::Framing(FrameError::InvalidUtf8)));
    assert_eq!(transport.buffered(), 1);
}

#[test]
fn read_message_gives_up_at_the_limit() {
    let pieces = vec![b"0123456789".to_vec(), b"]]>]]>".to_vec()];
    let mut transport = FramedTransport::with_limit(Pieces::new(pieces), 8);
    assert_eq!(transport.read_message(), Err(TransportError::Framing(FrameError::TooLarge)));
    assert_eq!(transport.buffered(), 8);
    let channel = transport.into_channel();
    assert_eq!(channel.reads, 1);
    assert_eq!(channel.pieces[0], b"89".to_vec());
}

#[test]
fn read_message_within_the_limit() {
    let pieces = vec![b"01]]>]]>".to_vec()];
    let mut transport = FramedTransport::with_limit(Pieces::new(pieces), 8);
    assert_eq!(transport.read_message(), Ok(String::from("01")));
}

#[test]
fn write_message_sends_payload_then_marker() {
    let mut transport = FramedTransport::new(Pieces::new(vec![]));
    assert_eq!(transport.write_message("  <rpc/>\r\n"), Ok(()));
    let channel = transport.into_channel();
    assert_eq!(channel.outgoing, b"<rpc/>]]>]]>".to_vec());
    assert_eq!(channel.writes, 1);
}

#[test]
fn write_message_goes_on_after_partial_writes() {
    let mut channel = Pieces::new(vec![]);
    channel.accept = 5;
    let mut transport = FramedTransport::new(channel);
    assert_eq!(transport.write_message("<rpc/>"), Ok(()));
    let channel = transport.into_channel();
    assert_eq!(channel.outgoing, b"<rpc/>]]>]]>".to_vec());
    assert_eq!(channel.writes, 3);
}

#[test]
fn write_message_fails_when_channel_fails() {
    let mut channel = Pieces::new(vec![]);
    channel.accept = 0;
    let mut transport = FramedTransport::new(channel);
    assert_eq!(transport.write_message("<rpc/>"), Err(TransportError::Io));
    assert_eq!(transport.into_channel().writes, 1);
}

#[test]
fn framed_transport_is_a_transport() {
    let mut transport = FramedTransport::new(Loopback::new());
    assert_eq!(transport.write_xml("<a/>"), Ok(()));
    assert_eq!(transport.write_xml("<b/>"), Ok(()));
    assert_eq!(transport.read_xml(), Ok(String::from("<a/>")));
    assert_eq!(transport.read_xml(), Ok(String::from("<b/>")));
    assert_eq!(transport.read_xml(), Err(TransportError::ConnectionClosed));
}
