//! Encoding of requests into AT command lines.
use vstd::prelude::*;
use vstd::string::StringSliceAdditionalSpecFns;

verus! {

/// The radio mode of the co-processor.
#[derive(Debug, Clone, Copy, PartialEq, Eq, Structural)]
pub enum WifiMode {
    /// Completely disable wifi RF activity.
    Disabled,
    /// Act as a regular wifi client.
    Station,
    /// Act as a wifi access point.
    SoftAP,
    /// Act as both a regular wifi client and a wifi access point.
    StationAndSoftAP,
}

/// How the co-processor scans for the access point to join.
#[derive(Debug, Clone, Copy, PartialEq, Eq, Structural)]
pub enum ScanMode {
    /// Fast scan: connect to the first access point found.
    Fast,
    /// Scan all channels and connect to the access point with the strongest signal.
    AllChannel,
}

/// Protected management frames.
#[derive(Debug, Clone, Copy, PartialEq, Eq, Structural)]
pub enum PMF {
    /// PMF is disabled.
    Disable,
    /// PMF is enabled and preferred but not required.
    Enable,
    /// PMF is enabled and required.
    Require,
}

/// Settings for joining an access point. In most cases only the ssid and the
/// password are set; an absent field leaves its slot of the command empty.
#[derive(Default)]
pub struct ConnectionConfig<'a> {
    /// SSID of the access point to join (at most 32 characters).
    pub ssid: Option<&'a str>,
    /// BSSID (MAC address) of the access point, needed when two access points share
    /// an SSID (exactly 17 characters).
    pub bssid: Option<&'a str>,
    /// Password of the access point (at most 32 characters).
    pub password: Option<&'a str>,
    /// Received signal strength to be used when joining.
    pub rssi: Option<&'a str>,
    /// PCI authentication enable.
    pub pci_enable: Option<bool>,
    /// Seconds between reconnect attempts, 0 to 7200; 0 never reconnects.
    pub reconnect_interval: Option<u16>,
    /// Interval of listening to the access point's beacon, 1 to 100.
    pub listen_interval: Option<u16>,
    /// Scan mode used to find the access point.
    pub scan_mode: Option<ScanMode>,
    /// Timeout of the command in seconds, 3 to 600.
    pub timeout: Option<u16>,
    /// Protected management frames.
    pub pmf: Option<PMF>,
}

/// The line ending that ends every command and reply line.
pub open spec fn crlf() -> Seq<u8> {
    seq![13u8, 10u8]
}

/// The digit that selects a radio mode.
pub open spec fn mode_digit(mode: WifiMode) -> u8 {
    match mode {
        WifiMode::Disabled => 48u8,
        WifiMode::Station => 49u8,
        WifiMode::SoftAP => 50u8,
        WifiMode::StationAndSoftAP => 51u8,
    }
}

/// `AT+CWMODE=<digit>,1\r\n`: the command line that selects a radio mode.
pub open spec fn mode_line(mode: WifiMode) -> Seq<u8> {
    seq![65u8, 84, 43, 67, 87, 77, 79, 68, 69, 61, mode_digit(mode), 44, 49, 13, 10]
}

/// Decimal ASCII digits of a number, without leading zeros.
pub open spec fn decimal(n: nat) -> Seq<u8>
    decreases n,
{
    if n < 10 {
        seq![(48 + n) as u8]
    } else {
        decimal(n / 10).push((48 + n % 10) as u8)
    }
}

/// The text of an optional text slot: its bytes, or nothing.
pub open spec fn text_slot(v: Option<&str>) -> Seq<u8> {
    match v {
        Some(s) => s.spec_bytes(),
        None => Seq::empty(),
    }
}

/// The text of an optional numeric slot: its decimal digits, or nothing.
pub open spec fn number_slot(v: Option<u16>) -> Seq<u8> {
    match v {
        Some(n) => decimal(n as nat),
        None => Seq::empty(),
    }
}

/// The authentication slot: `1` when enabled, `2` when disabled.
pub open spec fn pci_slot(v: Option<bool>) -> Seq<u8> {
    match v {
        Some(true) => seq![49u8],
        Some(false) => seq![50u8],
        None => Seq::empty(),
    }
}

/// The scan slot: `0` for a fast scan, `1` for a scan of all channels.
pub open spec fn scan_slot(v: Option<ScanMode>) -> Seq<u8> {
    match v {
        Some(ScanMode::Fast) => seq![48u8],
        Some(ScanMode::AllChannel) => seq![49u8],
        None => Seq::empty(),
    }
}

/// The management frame slot: `0` when disabled or enabled, `1` when required.
pub open spec fn pmf_slot(v: Option<PMF>) -> Seq<u8> {
    match v {
        Some(PMF::Disable) => seq![48u8],
        Some(PMF::Enable) => seq![48u8],
        Some(PMF::Require) => seq![49u8],
        None => Seq::empty(),
    }
}

/// `AT+CWJAP=`
pub open spec fn join_prefix() -> Seq<u8> {
    seq![65u8, 84, 43, 67, 87, 74, 65, 80, 61]
}

/// The comma between two slots.
pub open spec fn comma() -> Seq<u8> {
    seq![44u8]
}

/// `AT+CWJAP=<ssid>,<password>,<bssid>,<rssi>,<pci>,<reconnect>,<listen>,<scan>,<timeout>,<pmf>\r\n`:
/// the command line that joins an access point. Each slot keeps its position: an
/// absent field leaves it empty between its two commas.
pub open spec fn join_line(cfg: ConnectionConfig) -> Seq<u8> {
    join_prefix() + text_slot(cfg.ssid) + comma() + text_slot(cfg.password) + comma()
        + text_slot(cfg.bssid) + comma() + text_slot(cfg.rssi) + comma() + pci_slot(
        cfg.pci_enable,
    ) + comma() + number_slot(cfg.reconnect_interval) + comma() + number_slot(
        cfg.listen_interval,
    ) + comma() + scan_slot(cfg.scan_mode) + comma() + number_slot(cfg.timeout) + comma()
        + pmf_slot(cfg.pmf) + crlf()
}

/// Builds the command line that selects a radio mode.
pub fn mode_command(mode: WifiMode) -> (r: Vec<u8>)
    ensures
        r@ == mode_line(mode),
{
    let digit: u8 = match mode {
        WifiMode::Disabled => 48,
        WifiMode::Station => 49,
        WifiMode::SoftAP => 50,
        WifiMode::StationAndSoftAP => 51,
    };
    let r = vec![65u8, 84, 43, 67, 87, 77, 79, 68, 69, 61, digit, 44, 49, 13, 10];
    proof {
        assert(r@ =~= mode_line(mode));
    }
    r
}

/// Appends the decimal digits of `n`.
fn push_decimal(out: &mut Vec<u8>, n: u16)
    ensures
        final(out)@ == old(out)@ + decimal(n as nat),
    decreases n,
{
    if n >= 10 {
        push_decimal(out, n / 10);
    }
    out.push(48u8 + (n % 10) as u8);
    proof {
        assert(final(out)@ =~= old(out)@ + decimal(n as nat));
    }
}

fn push_text(out: &mut Vec<u8>, v: Option<&str>)
    ensures
        final(out)@ == old(out)@ + text_slot(v),
{
    match v {
        Some(s) => out.extend_from_slice(s.as_bytes()),
        None => {
            assert(old(out)@ =~= old(out)@ + text_slot(v));
        },
    }
}

fn push_number(out: &mut Vec<u8>, v: Option<u16>)
    ensures
        final(out)@ == old(out)@ + number_slot(v),
{
    match v {
        Some(n) => push_decimal(out, n),
        None => {
            assert(old(out)@ =~= old(out)@ + number_slot(v));
        },
    }
}

fn push_comma(out: &mut Vec<u8>)
    ensures
        final(out)@ == old(out)@ + comma(),
{
    out.push(44u8);
    assert(final(out)@ =~= old(out)@ + comma());
}

fn push_pci(out: &mut Vec<u8>, v: Option<bool>)
    ensures
        final(out)@ == old(out)@ + pci_slot(v),
{
    match v {
        Some(true) => out.push(49u8),
        Some(false) => out.push(50u8),
        None => {},
    }
    assert(final(out)@ =~= old(out)@ + pci_slot(v));
}

fn push_scan(out: &mut Vec<u8>, v: Option<ScanMode>)
    ensures
        final(out)@ == old(out)@ + scan_slot(v),
{
    match v {
        Some(ScanMode::Fast) => out.push(48u8),
        Some(ScanMode::AllChannel) => out.push(49u8),
        None => {},
    }
    assert(final(out)@ =~= old(out)@ + scan_slot(v));
}

fn push_pmf(out: &mut Vec<u8>, v: Option<PMF>)
    ensures
        final(out)@ == old(out)@ + pmf_slot(v),
{
    match v {
        Some(PMF::Disable) => out.push(48u8),
        Some(PMF::Enable) => out.push(48u8),
        Some(PMF::Require) => out.push(49u8),
        None => {},
    }
    assert(final(out)@ =~= old(out)@ + pmf_slot(v));
}

/// Builds the command line that joins the access point described by `config`.
pub fn join_command(config: &ConnectionConfig) -> (r: Vec<u8>)
    ensures
        r@ == join_line(*config),
{
    let mut out: Vec<u8> = vec![65u8, 84, 43, 67, 87, 74, 65, 80, 61];
    assert(out@ =~= join_prefix());
    push_text(&mut out, config.ssid);
    push_comma(&mut out);
    push_text(&mut out, config.password);
    push_comma(&mut out);
    push_text(&mut out, config.bssid);
    push_comma(&mut out);
    push_text(&mut out, config.rssi);
    push_comma(&mut out);
    push_pci(&mut out, config.pci_enable);
    push_comma(&mut out);
    push_number(&mut out, config.reconnect_interval);
    push_comma(&mut out);
    push_number(&mut out, config.listen_interval);
    push_comma(&mut out);
    push_scan(&mut out, config.scan_mode);
    push_comma(&mut out);
    push_number(&mut out, config.timeout);
    push_comma(&mut out);
    push_pmf(&mut out, config.pmf);
    let ghost before = out@;
    out.push(13u8);
    out.push(10u8);
    assert(out@ =~= before + crlf());
    out
}

/// `AT+CIFSR\r\n`: the command line that queries the local addresses.
pub open spec fn query_line() -> Seq<u8> {
    seq![65u8, 84, 43, 67, 73, 70, 83, 82, 13, 10]
}

/// Builds the command line that queries the local addresses.
pub fn query_command() -> (r: Vec<u8>)
    ensures
        r@ == query_line(),
{
    let r = vec![65u8, 84, 43, 67, 73, 70, 83, 82, 13, 10];
    assert(r@ =~= query_line());
    r
}

} // verus!
