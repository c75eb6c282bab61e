use netconf_rs::greeting::check_capabilities;
use netconf_rs::greeting::check_greeting;
use netconf_rs::greeting::read_capabilities;
use netconf_rs::greeting::GreetingError;
use netconf_rs::transport::channel::ByteChannel;
use netconf_rs::transport::channel::ChannelError;
use netconf_rs::transport::framed::FramedTransport;
use netconf_rs::transport::russh::RusshConfig;
use netconf_rs::transport::Transport;
use netconf_rs::transport::TransportError;
use netconf_rs::Connection;
use netconf_rs::SessionError;
use netconf_rs::SessionState;
use std::time::Duration;

const SERVER_HELLO: &str = r#"<?xml version="1.0" encoding="UTF-8"?>
<hello xmlns="urn:ietf:params:xml:ns:netconf:base:1.0">
  <capabilities>
    <capability>urn:ietf:params:netconf:base:1.0</capability>
    <capability>
      urn:example:yang:mod?module=mod&amp;revision=2020-01-01
    </capability>
  </capabilities>
  <session-id>4</session-id>
</hello>"#;

struct Canned {
    replies: Vec<Result<String, TransportError>>,
    written: Vec<String>,
}

impl Canned {
    fn new(replies: Vec<Result<String, TransportError>>) -> Canned {
        Canned { replies, written: Vec::new() }
    }
}

impl Transport for Canned {
    fn read_xml(&mut self) -> Result<String, TransportError> {
        if self.replies.is_empty() {
            Err(TransportError::ConnectionClosed)
        } else {
            self.replies.remove(0)
        }
    }

    fn write_xml(&mut self, data: &str) -> Result<(), TransportError> {
        self.written.push(data.to_string());
        Ok(())
    }
}

struct Scripted {
    incoming: Vec<u8>,
    step: usize,
    outgoing: Vec<u8>,
}

impl ByteChannel for Scripted {
    fn read(&mut self, max: usize) -> Result<Vec<u8>, ChannelError> {
        let n = max.min(self.step).min(self.incoming.len());
        Ok(self.incoming.drain(..n).collect())
    }

    fn write(&mut self, bytes: &[u8]) -> Result<usize, ChannelError> {
        let n = bytes.len().min(self.step);
        self.outgoing.extend_from_slice(&bytes[..n]);
        Ok(n)
    }
}

#[test]
fn read_capabilities_lists_entries_in_order() {
    assert_eq!(
        read_capabilities(SERVER_HELLO),
        Some(vec![
            String::from("urn:ietf:params:netconf:base:1.0"),
            String::from("urn:example:yang:mod?module=mod&revision=2020-01-01"),
        ])
    );
}

#[test]
fn read_capabilities_passes_over_other_elements() {
    let text = "<hello><other><capabilities><capability>x</capability></capabilities></other>\
                <capabilities><!-- c --><capability>a<b>no</b>c</capability><capability/>\
                <x:capability xmlns:x=\"u\"><![CDATA[ d&e ]]></x:capability></capabilities></hello>";
    assert_eq!(
        read_capabilities(text),
        Some(vec![String::from("ac"), String::new(), String::from("d&e")])
    );
}

#[test]
fn read_capabilities_resolves_references() {
    let text = "<hello><capabilities><capability>a&lt;b&#x41;&#66;&quot;c</capability>\
                </capabilities></hello>";
    assert_eq!(read_capabilities(text), Some(vec![String::from("a<bAB\"c")]));
}

#[test]
fn read_capabilities_accepts_prefixed_names() {
    let text = "<nc:hello xmlns:nc=\"urn:ietf:params:xml:ns:netconf:base:1.0\">\
                <nc:capabilities><nc:capability>urn:ietf:params:netconf:base:1.0</nc:capability>\
                </nc:capabilities></nc:hello>";
    assert_eq!(
        read_capabilities(text),
        Some(vec![String::from("urn:ietf:params:netconf:base:1.0")])
    );
}

#[test]
fn read_capabilities_refuses_malformed_documents() {
    assert_eq!(read_capabilities("<hello><capabilities></hello>"), None);
    assert_eq!(read_capabilities("<hello><capabilities>"), None);
    assert_eq!(
        read_capabilities("<hello><capabilities><capability>&nope;</capability></capabilities></hello>"),
        None
    );
}

#[test]
fn read_capabilities_of_other_documents_is_empty() {
    assert_eq!(read_capabilities(""), Some(vec![]));
    assert_eq!(
        read_capabilities("<rpc-reply><capabilities><capability>x</capability></capabilities></rpc-reply>"),
        Some(vec![])
    );
}

#[test]
fn check_capabilities_gives_each_verdict() {
    assert_eq!(check_capabilities(&vec![]), Err(GreetingError::NoCapabilities));
    assert_eq!(
        check_capabilities(&vec![String::from("urn:ietf:params:netconf:base:1.1")]),
        Err(GreetingError::MissingBaseCapability)
    );
    assert_eq!(
        check_capabilities(&vec![
            String::from("urn:x"),
            String::from("urn:ietf:params:netconf:base:1.0")
        ]),
        Ok(())
    );
}

#[test]
fn check_greeting_gives_each_verdict() {
    assert_eq!(check_greeting(SERVER_HELLO), Ok(()));
    assert_eq!(check_greeting("<hello><capabilities/></hello>"), Err(GreetingError::NoCapabilities));
    assert_eq!(
        check_greeting("<hello><capabilities><capability>urn:x</capability></capabilities></hello>"),
        Err(GreetingError::MissingBaseCapability)
    );
    assert_eq!(check_greeting("<hello><capabilities>"), Err(GreetingError::Malformed));
}

#[test]
fn handshake_without_capabilities_gives_no_session() {
    let canned = Canned::new(vec![Ok(String::from("<hello><capabilities/></hello>"))]);
    match Connection::new(canned) {
        Err(e) => assert_eq!(e, SessionError::Handshake(GreetingError::NoCapabilities)),
        Ok(_) => panic!("a session came about"),
    }
}

#[test]
fn handshake_with_base_capability_leaves_session_ready() {
    let canned = Canned::new(vec![Ok(String::from(SERVER_HELLO))]);
    let conn = Connection::new(canned).unwrap();
    assert_eq!(conn.state(), SessionState::Ready);
    let transport = conn.into_transport();
    assert_eq!(transport.written.len(), 1);
    assert!(transport.written[0].contains("<hello xmlns=\"urn:ietf:params:xml:ns:netconf:base:1.0\">"));
    assert!(!transport.written[0].contains("]]>]]>"));
}

#[test]
fn handshake_without_base_capability_gives_no_session() {
    let greeting = "<hello><capabilities><capability>urn:ietf:params:netconf:base:1.1</capability>\
                    </capabilities></hello>";
    let canned = Canned::new(vec![Ok(String::from(greeting))]);
    match Connection::new(canned) {
        Err(e) => assert_eq!(e, SessionError::Handshake(GreetingError::MissingBaseCapability)),
        Ok(_) => panic!("a session came about"),
    }
}

#[test]
fn handshake_with_malformed_greeting_gives_no_session() {
    let canned = Canned::new(vec![Ok(String::from("<hello><capabilities></hello>"))]);
    match Connection::new(canned) {
        Err(e) => assert_eq!(e, SessionError::Handshake(GreetingError::Malformed)),
        Ok(_) => panic!("a session came about"),
    }
}

#[test]
fn handshake_fails_when_greeting_cannot_be_written() {
    let channel = Scripted { incoming: Vec::new(), step: 0, outgoing: Vec::new() };
    match Connection::new(FramedTransport::new(channel)) {
        Err(e) => assert_eq!(e, SessionError::Transport(TransportError::Io)),
        Ok(_) => panic!("a session came about"),
    }
}

#[test]
fn handshake_fails_when_peer_closes_before_greeting() {
    let channel = Scripted { incoming: b"<hello>".to_vec(), step: 64, outgoing: Vec::new() };
    match Connection::new(FramedTransport::new(channel)) {
        Err(e) => assert_eq!(e, SessionError::Transport(TransportError::ConnectionClosed)),
        Ok(_) => panic!("a session came about"),
    }
}

#[test]
fn execute_hands_request_to_transport_and_returns_reply() {
    let canned = Canned::new(vec![
        Ok(String::from(SERVER_HELLO)),
        Ok(String::from("<rpc-reply message-id=\"7\"><ok/></rpc-reply>")),
        Ok(String::from("<rpc-reply message-id=\"8\"><ok/></rpc-reply>")),
    ]);
    let mut conn = Connection::new(canned).unwrap();
    assert_eq!(
        conn.execute("<rpc message-id=\"7\"><lock/></rpc>"),
        Ok(String::from("<rpc-reply message-id=\"7\"><ok/></rpc-reply>"))
    );
    assert_eq!(
        conn.execute("<rpc message-id=\"8\"><unlock/></rpc>"),
        Ok(String::from("<rpc-reply message-id=\"8\"><ok/></rpc-reply>"))
    );
    assert_eq!(conn.state(), SessionState::Ready);
    let transport = conn.into_transport();
    assert_eq!(transport.written.len(), 3);
    assert_eq!(transport.written[1], "<rpc message-id=\"7\"><lock/></rpc>");
    assert_eq!(transport.written[2], "<rpc message-id=\"8\"><unlock/></rpc>");
}

#[test]
fn handshake_fails_when_transport_fails() {
    let canned = Canned::new(vec![Err(TransportError::Io)]);
    match Connection::new(canned) {
        Err(e) => assert_eq!(e, SessionError::Transport(TransportError::Io)),
        Ok(_) => panic!("a session came about"),
    }
}

#[test]
fn execute_after_transport_failure_is_refused() {
    let canned = Canned::new(vec![
        Ok(String::from(SERVER_HELLO)),
        Err(TransportError::ConnectionClosed),
        Ok(String::from("<rpc-reply/>")),
    ]);
    let mut conn = Connection::new(canned).unwrap();
    assert_eq!(
        conn.execute("<rpc/>"),
        Err(SessionError::Transport(TransportError::ConnectionClosed))
    );
    assert_eq!(conn.state(), SessionState::Closed);
    assert_eq!(conn.execute("<rpc/>"), Err(SessionError::Closed));
    assert_eq!(conn.get_config(), Err(SessionError::Closed));
    let transport = conn.into_transport();
    assert_eq!(transport.written.len(), 2);
    assert_eq!(transport.replies.len(), 1);
}

#[test]
fn close_ends_the_session() {
    let canned = Canned::new(vec![Ok(String::from(SERVER_HELLO))]);
    let mut conn = Connection::new(canned).unwrap();
    conn.close();
    assert_eq!(conn.state(), SessionState::Closed);
    assert_eq!(conn.execute("<rpc/>"), Err(SessionError::Closed));
}

#[test]
fn get_config_returns_reply_text_unmodified() {
    let reply = "<rpc-reply message-id=\"100\" xmlns=\"urn:ietf:params:xml:ns:netconf:base:1.0\">\
                 <data><top>  text </top></data></rpc-reply>";
    let mut incoming = Vec::new();
    incoming.extend_from_slice(SERVER_HELLO.as_bytes());
    incoming.extend_from_slice(b"]]>]]>");
    incoming.extend_from_slice(reply.as_bytes());
    incoming.extend_from_slice(b"]]>]]>");
    let channel = Scripted { incoming, step: 7, outgoing: Vec::new() };
    let mut conn = Connection::new(FramedTransport::new(channel)).unwrap();
    assert_eq!(conn.get_config(), Ok(String::from(reply)));
    assert_eq!(conn.state(), SessionState::Ready);
    let sent = conn.into_transport().into_channel().outgoing;
    let sent = String::from_utf8(sent).unwrap();
    let messages: Vec<&str> = sent.split("]]>]]>").collect();
    assert_eq!(messages.len(), 3);
    assert!(messages[0].starts_with("<?xml version=\"1.0\" encoding=\"UTF-8\"?>\n<hello"));
    assert!(messages[0].ends_with("</hello>"));
    assert!(messages[1].starts_with("<?xml version=\"1.0\" encoding=\"UTF-8\"?>\n<rpc message-id=\"100\""));
    assert!(messages[1].contains("<get-config>"));
    assert!(messages[1].ends_with("</rpc>"));
    assert_eq!(messages[2], "");
}

#[test]
fn config_defaults_to_thirty_seconds() {
    assert_eq!(RusshConfig::new().inactivity_timeout, Some(Duration::from_secs(30)));
    assert_eq!(RusshConfig::default().inactivity_timeout, Some(Duration::from_secs(30)));
    assert_eq!(
        RusshConfig::new().inactivity_timeout(Duration::from_secs(60)).inactivity_timeout,
        Some(Duration::from_secs(60))
    );
}
