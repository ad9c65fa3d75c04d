use std::cell::RefCell;
use std::collections::VecDeque;
use std::rc::Rc;

use esp_at_driver::{
    frame_chunk, frame_read, get_element_after, join_command, local_addresses, mode_command, query_command,
    read_room, reply_as_slice, reply_from_read, ConnectionConfig, EspAt, Framing, GenericEspAtError, Interface, ReplyData,
    ScanMode, Transport, TransportError, WifiMode, PMF,
};

struct MockState {
    expected_writes: VecDeque<u8>,
    reads: VecDeque<Vec<u8>>,
}

/// A scripted transport: the bytes it expects to be written, and the chunks it
/// hands out, one per read.
#[derive(Clone)]
struct Mock {
    state: Rc<RefCell<MockState>>,
}

impl Mock {
    fn new(expected_writes: &[u8], reads: &[&[u8]]) -> Mock {
        Mock {
            state: Rc::new(RefCell::new(MockState {
                expected_writes: expected_writes.iter().copied().collect(),
                reads: reads.iter().map(|r| r.to_vec()).collect(),
            })),
        }
    }

    fn done(&self) {
        let state = self.state.borrow();
        assert!(state.expected_writes.is_empty(), "bytes were not written");
        assert!(state.reads.is_empty(), "bytes were not read");
    }
}

impl Transport for Mock {
    fn read(&mut self, max_len: usize) -> Result<Vec<u8>, TransportError> {
        let mut state = self.state.borrow_mut();
        assert!(state.expected_writes.is_empty(), "read before the command was written");
        match state.reads.pop_front() {
            None => Err(TransportError::EndOfStream),
            Some(mut chunk) => {
                if chunk.len() > max_len {
                    let rest = chunk.split_off(max_len);
                    state.reads.push_front(rest);
                }
                Ok(chunk)
            }
        }
    }

    fn write_all(&mut self, data: &[u8]) -> Result<(), TransportError> {
        let mut state = self.state.borrow_mut();
        for b in data {
            assert_eq!(state.expected_writes.pop_front(), Some(*b), "unexpected write");
        }
        Ok(())
    }
}

fn empty_reply() -> ReplyData {
    ReplyData::new()
}

fn feed_all(chunks: &[&[u8]]) -> Result<ReplyData, GenericEspAtError> {
    let mut reply = empty_reply();
    for chunk in chunks {
        match frame_chunk(reply, chunk) {
            Framing::Pending(next) => reply = next,
            Framing::Done(done) => return done,
        }
    }
    panic!("the reply did not complete");
}

#[test]
fn test_constructing() {
    let serial = Mock::new(&[], &[]);
    EspAt::new(serial.clone());
    serial.done();
}

#[test]
fn test_set_wifi_mode_disable() {
    let serial = Mock::new(b"AT+CWMODE=0,1\r\n", &[b"OK\r\n"]);
    let mut esp_at = EspAt::new(serial.clone());
    esp_at.set_wifi_mode(WifiMode::Disabled).unwrap();
    serial.done();
}

#[test]
fn mode_command_for_each_mode() {
    assert_eq!(mode_command(WifiMode::Disabled), b"AT+CWMODE=0,1\r\n".to_vec());
    assert_eq!(mode_command(WifiMode::Station), b"AT+CWMODE=1,1\r\n".to_vec());
    assert_eq!(mode_command(WifiMode::SoftAP), b"AT+CWMODE=2,1\r\n".to_vec());
    assert_eq!(mode_command(WifiMode::StationAndSoftAP), b"AT+CWMODE=3,1\r\n".to_vec());
}

#[test]
fn set_wifi_mode_station_and_softap() {
    let serial = Mock::new(b"AT+CWMODE=3,1\r\n", &[b"OK\r\n"]);
    let mut esp_at = EspAt::new(serial.clone());
    assert!(esp_at.set_wifi_mode(WifiMode::StationAndSoftAP).is_ok());
    serial.done();
}

#[test]
fn join_command_with_no_field_keeps_every_slot() {
    let config = ConnectionConfig::default();
    assert_eq!(join_command(&config), b"AT+CWJAP=,,,,,,,,,\r\n".to_vec());
}

#[test]
fn join_command_with_every_field() {
    let config = ConnectionConfig {
        ssid: Some("home"),
        bssid: Some("ca:fe:ba:be:00:01"),
        password: Some("secret"),
        rssi: Some("-40"),
        pci_enable: Some(false),
        reconnect_interval: Some(7200),
        listen_interval: Some(3),
        scan_mode: Some(ScanMode::AllChannel),
        timeout: Some(16),
        pmf: Some(PMF::Require),
    };
    assert_eq!(
        join_command(&config),
        b"AT+CWJAP=home,secret,ca:fe:ba:be:00:01,-40,2,7200,3,1,16,1\r\n".to_vec()
    );
}

#[test]
fn join_command_keeps_positions_around_empty_slots() {
    let config = ConnectionConfig {
        ssid: Some("net"),
        password: Some("pw"),
        pci_enable: Some(true),
        reconnect_interval: Some(0),
        scan_mode: Some(ScanMode::Fast),
        pmf: Some(PMF::Enable),
        ..Default::default()
    };
    assert_eq!(join_command(&config), b"AT+CWJAP=net,pw,,,1,0,,0,,0\r\n".to_vec());
}

#[test]
fn join_command_pmf_disable_and_enable_share_a_code() {
    let disable = ConnectionConfig { pmf: Some(PMF::Disable), ..Default::default() };
    let enable = ConnectionConfig { pmf: Some(PMF::Enable), ..Default::default() };
    assert_eq!(join_command(&disable), join_command(&enable));
}

#[test]
fn connect_to_access_point_writes_the_join_line() {
    let serial = Mock::new(b"AT+CWJAP=net,pw,,,,,,,65535,\r\n", &[b"WIFI CONNECTED\r\n", b"OK\r\n"]);
    let mut esp_at = EspAt::new(serial.clone());
    let config = ConnectionConfig {
        ssid: Some("net"),
        password: Some("pw"),
        timeout: Some(65535),
        ..Default::default()
    };
    assert!(esp_at.connect_to_access_point(config).is_ok());
    serial.done();
}

#[test]
fn query_command_bytes() {
    assert_eq!(query_command(), b"AT+CIFSR\r\n".to_vec());
}

#[test]
fn framing_in_one_read_or_four() {
    let whole = feed_all(&[b"OK\r\n"]).unwrap();
    let split = feed_all(&[b"O", b"K", b"\r", b"\n"]).unwrap();
    assert_eq!(reply_as_slice(&whole), b"");
    assert_eq!(reply_as_slice(&whole), reply_as_slice(&split));
}

#[test]
fn framing_in_four_reads_through_the_driver() {
    let serial = Mock::new(b"AT+CWMODE=1,1\r\n", &[b"O", b"K", b"\r", b"\n"]);
    let mut esp_at = EspAt::new(serial.clone());
    assert!(esp_at.set_wifi_mode(WifiMode::Station).is_ok());
    serial.done();
}

#[test]
fn framing_keeps_the_payload_before_ok() {
    let reply = feed_all(&[b"+CIFSR:APIP,1.2.3.4\r\n", b"OK\r", b"\n"]).unwrap();
    assert_eq!(reply_as_slice(&reply), b"+CIFSR:APIP,1.2.3.4\r\n");
}

#[test]
fn framing_overflow_carries_the_collected_bytes() {
    let block = [b'a'; 128];
    let result = feed_all(&[&block, &block, &block, &block]);
    match result {
        Err(GenericEspAtError::ATResponseTooLong(bytes)) => {
            assert_eq!(reply_as_slice(&bytes), &[b'a'; 512][..]);
        }
        _ => panic!("expected an overflow"),
    }
}

#[test]
fn framing_overflow_through_the_driver() {
    let long = [b'x'; 600];
    let serial = Mock::new(b"AT+CWMODE=2,1\r\n", &[&long]);
    let mut esp_at = EspAt::new(serial.clone());
    match esp_at.set_wifi_mode(WifiMode::SoftAP) {
        Err(GenericEspAtError::ATResponseTooLong(bytes)) => {
            assert_eq!(reply_as_slice(&bytes), &[b'x'; 512][..]);
        }
        _ => panic!("expected an overflow"),
    }
}

#[test]
fn framing_chunk_that_does_not_fit_overflows() {
    let mut reply = empty_reply();
    match frame_chunk(reply, b"abc") {
        Framing::Pending(next) => reply = next,
        Framing::Done(_) => panic!("the reply is not complete"),
    }
    let big = [b'z'; 510];
    match frame_chunk(reply, &big) {
        Framing::Done(Err(GenericEspAtError::ATResponseTooLong(bytes))) => {
            assert_eq!(reply_as_slice(&bytes), b"abc");
        }
        _ => panic!("expected an overflow"),
    }
}

#[test]
fn error_reply_carries_the_bytes_before_it() {
    match feed_all(&[b"busy p...\r\n", b"ERROR\r\n"]) {
        Err(GenericEspAtError::ATError(bytes)) => {
            assert_eq!(reply_as_slice(&bytes), b"busy p...\r\n");
        }
        _ => panic!("expected a failure"),
    }
}

#[test]
fn error_reply_through_the_driver() {
    let serial = Mock::new(b"AT+CWMODE=0,1\r\n", &[b"ERR", b"OR\r\n"]);
    let mut esp_at = EspAt::new(serial.clone());
    match esp_at.set_wifi_mode(WifiMode::Disabled) {
        Err(GenericEspAtError::ATError(bytes)) => assert_eq!(reply_as_slice(&bytes), b""),
        _ => panic!("expected a failure"),
    }
    serial.done();
}

#[test]
fn end_of_stream_is_a_transport_failure() {
    let serial = Mock::new(b"AT+CWMODE=0,1\r\n", &[b"OK"]);
    let mut esp_at = EspAt::new(serial.clone());
    match esp_at.set_wifi_mode(WifiMode::Disabled) {
        Err(GenericEspAtError::Transport(TransportError::EndOfStream)) => {}
        _ => panic!("expected a transport failure"),
    }
}

#[test]
fn extract_tags_from_an_address_reply() {
    let payload = b"+CIFSR:APIP,192.168.4.1\r\n+CIFSR:APIP6LL,fe80::1\r\n";
    assert_eq!(get_element_after(payload, b"APIP", 15).unwrap(), Some(b"192.168.4.1".to_vec()));
    assert_eq!(get_element_after(payload, b"APIP6LL", 39).unwrap(), Some(b"fe80::1".to_vec()));
}

#[test]
fn extract_missing_tag_is_absent() {
    let payload = b"+CIFSR:APIP,192.168.4.1\r\n";
    assert_eq!(get_element_after(payload, b"STAIP", 15).unwrap(), None);
}

#[test]
fn extract_value_too_long_is_invalid() {
    let payload = b"+CIFSR:APIP,192.168.4.1\r\n";
    match get_element_after(payload, b"APIP", 10) {
        Err(GenericEspAtError::ATResponseInvalid) => {}
        _ => panic!("expected an invalid response"),
    }
}

#[test]
fn extract_value_of_exactly_the_room_fits() {
    let payload = b"+CIFSR:APIP,192.168.4.1";
    assert_eq!(get_element_after(payload, b"APIP", 11).unwrap(), Some(b"192.168.4.1".to_vec()));
}

#[test]
fn extract_value_stops_at_a_comma() {
    let payload = b"+CIFSR:STAMAC,aa:bb,cc\r\n";
    assert_eq!(get_element_after(payload, b"STAMAC", 17).unwrap(), Some(b"aa:bb".to_vec()));
}

#[test]
fn extract_unanchored_tag_can_match_a_longer_tag() {
    // A tag that is a prefix of another tag matches the first of them that occurs.
    let payload = b"+CIFSR:APIP6LL,fe80::1\r\n+CIFSR:APIP,192.168.4.1\r\n";
    assert_eq!(get_element_after(payload, b"APIP", 15).unwrap(), Some(b"LL".to_vec()));
}

#[test]
fn local_addresses_of_the_station() {
    let payload = b"+CIFSR:APIP,192.168.4.1\r\n+CIFSR:APMAC,1a:2b:3c:4d:5e:6f\r\n+CIFSR:STAIP,10.0.0.7\r\n+CIFSR:STAMAC,aa:bb:cc:dd:ee:ff\r\n";
    let addresses = local_addresses(payload, Interface::Station).unwrap();
    assert_eq!(addresses.ipv4, Some(b"10.0.0.7".to_vec()));
    assert_eq!(addresses.ipv6_local, None);
    assert_eq!(addresses.ipv6_global, None);
    assert_eq!(addresses.mac, Some(b"aa:bb:cc:dd:ee:ff".to_vec()));
}

#[test]
fn local_addresses_too_long_value_is_invalid() {
    let payload = b"+CIFSR:ETHIP,1234567890.1234567890\r\n";
    assert!(matches!(
        local_addresses(payload, Interface::Ethernet),
        Err(GenericEspAtError::ATResponseInvalid)
    ));
}

#[test]
fn get_local_addresses_softap_through_the_driver() {
    let serial = Mock::new(
        b"AT+CIFSR\r\n",
        &[b"+CIFSR:APIP,192.168.4.1\r\n+CIFSR:APIP6LL,fe80::1\r\n", b"+CIFSR:APMAC,1a:2b:3c:4d:5e:6f\r\nOK\r\n"],
    );
    let mut esp_at = EspAt::new(serial.clone());
    let addresses = esp_at.get_local_addresses_softap().unwrap();
    assert_eq!(addresses.ipv4, Some(b"192.168.4.1".to_vec()));
    assert_eq!(addresses.ipv6_local, Some(b"fe80::1".to_vec()));
    assert_eq!(addresses.ipv6_global, None);
    assert_eq!(addresses.mac, Some(b"1a:2b:3c:4d:5e:6f".to_vec()));
    serial.done();
}

#[test]
fn get_local_addresses_ethernet_through_the_driver() {
    let serial = Mock::new(b"AT+CIFSR\r\n", &[b"+CIFSR:ETHIP,10.1.1.1\r\nOK\r\n"]);
    let mut esp_at = EspAt::new(serial.clone());
    let addresses = esp_at.get_local_addresses_ethernet().unwrap();
    assert_eq!(addresses.ipv4, Some(b"10.1.1.1".to_vec()));
    assert_eq!(addresses.mac, None);
    serial.done();
}

#[test]
fn get_local_addresses_station_error_reply() {
    let serial = Mock::new(b"AT+CIFSR\r\n", &[b"ERROR\r\n"]);
    let mut esp_at = EspAt::new(serial.clone());
    assert!(matches!(esp_at.get_local_addresses_station(), Err(GenericEspAtError::ATError(_))));
    serial.done();
}

#[test]
fn direct_write_and_read() {
    let serial = Mock::new(b"AT\r\n", &[b"OK\r\n"]);
    let mut esp_at = EspAt::new(serial.clone());
    esp_at.direct_write(b"AT\r\n").unwrap();
    let reply = esp_at.direct_read().unwrap();
    assert_eq!(reply_as_slice(&reply), b"OK\r\n");
    serial.done();
}

#[test]
fn read_room_is_what_is_left_of_the_buffer() {
    let reply = empty_reply();
    assert_eq!(read_room(&reply), 512);
    match frame_chunk(reply, b"+CIFSR") {
        Framing::Pending(next) => assert_eq!(read_room(&next), 506),
        Framing::Done(_) => panic!("the reply is not complete"),
    }
}

#[test]
fn frame_read_of_nothing_is_end_of_stream() {
    assert!(matches!(
        frame_read(empty_reply(), b""),
        Framing::Done(Err(GenericEspAtError::Transport(TransportError::EndOfStream)))
    ));
}

#[test]
fn frame_read_of_bytes_frames_them() {
    match frame_read(empty_reply(), b"ready\r\nOK\r\n") {
        Framing::Done(Ok(payload)) => assert_eq!(reply_as_slice(&payload), b"ready\r\n"),
        _ => panic!("expected a payload"),
    }
}

#[test]
fn reply_from_read_keeps_the_bytes() {
    let reply = reply_from_read(b"hello").unwrap();
    assert_eq!(reply_as_slice(&reply), b"hello");
}

#[test]
fn reply_from_read_overflow_keeps_what_fits() {
    let mut long = vec![b'q'; 512];
    long.extend_from_slice(b"tail");
    match reply_from_read(&long) {
        Err(GenericEspAtError::ATResponseTooLong(bytes)) => {
            assert_eq!(reply_as_slice(&bytes), &[b'q'; 512][..]);
        }
        _ => panic!("expected an overflow"),
    }
}

#[test]
fn direct_read_asks_for_a_buffer_at_most() {
    let long = [b'r'; 700];
    let serial = Mock::new(b"", &[&long]);
    let mut esp_at = EspAt::new(serial.clone());
    let first = esp_at.direct_read().unwrap();
    assert_eq!(reply_as_slice(&first), &[b'r'; 512][..]);
    let second = esp_at.direct_read().unwrap();
    assert_eq!(reply_as_slice(&second), &[b'r'; 188][..]);
    serial.done();
}

#[test]
fn reading_stops_at_the_terminator() {
    let serial = Mock::new(b"AT+CWMODE=1,1\r\n", &[b"OK\r\n", b"+late\r\n"]);
    let mut esp_at = EspAt::new(serial.clone());
    assert!(esp_at.set_wifi_mode(WifiMode::Station).is_ok());
    assert_eq!(serial.state.borrow().reads.len(), 1);
}

struct FailingWrite;

impl Transport for FailingWrite {
    fn read(&mut self, _max_len: usize) -> Result<Vec<u8>, TransportError> {
        panic!("read after a failed write");
    }

    fn write_all(&mut self, _data: &[u8]) -> Result<(), TransportError> {
        Err(TransportError::Fault(7))
    }
}

#[test]
fn failed_write_reads_nothing() {
    let mut esp_at = EspAt::new(FailingWrite);
    assert!(matches!(
        esp_at.set_wifi_mode(WifiMode::Station),
        Err(GenericEspAtError::Transport(TransportError::Fault(7)))
    ));
    assert!(matches!(
        esp_at.connect_to_access_point(ConnectionConfig::default()),
        Err(GenericEspAtError::Transport(TransportError::Fault(7)))
    ));
    assert!(matches!(
        esp_at.get_local_addresses_softap(),
        Err(GenericEspAtError::Transport(TransportError::Fault(7)))
    ));
}

/// Records the room each read asks for, and fails the third read.
struct CountingReads {
    asked: Rc<RefCell<Vec<usize>>>,
}

impl Transport for CountingReads {
    fn read(&mut self, max_len: usize) -> Result<Vec<u8>, TransportError> {
        let mut asked = self.asked.borrow_mut();
        asked.push(max_len);
        match asked.len() {
            1 => Ok(b"+CIFSR:".to_vec()),
            2 => Ok(b"STAIP".to_vec()),
            _ => Err(TransportError::Fault(3)),
        }
    }

    fn write_all(&mut self, _data: &[u8]) -> Result<(), TransportError> {
        Ok(())
    }
}

#[test]
fn each_read_asks_for_the_room_left_and_a_failed_read_is_the_last() {
    let asked = Rc::new(RefCell::new(Vec::new()));
    let mut esp_at = EspAt::new(CountingReads { asked: asked.clone() });
    assert!(matches!(
        esp_at.get_local_addresses_station(),
        Err(GenericEspAtError::Transport(TransportError::Fault(3)))
    ));
    assert_eq!(*asked.borrow(), vec![512, 505, 500]);
}
