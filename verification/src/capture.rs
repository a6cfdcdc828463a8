use vstd::prelude::*;
use crate::bluetooth_tools::{str_chars, string_from_chars};

verus! {

/// Cap on the backoff between consecutive failed cycles (adapter not
/// found, or a D-Bus/HCI call failed), in seconds. Backing off rather than
/// retrying every second avoids hammering an adapter that is mid-reset or
/// gone.
pub const MAX_BACKOFF_SECONDS: u64 = 60;

/// Size handed to the device pipeline with each advertisement.
pub const DEVICE_PIPELINE_LEN: u32 = 1024;

/// The configuration of a Bluetooth capture interface.
#[derive(Debug, Clone, Copy, PartialEq, Eq, Structural)]
pub struct BluetoothInterface {
    pub bt_classic_enabled: bool,
    pub bt_le_enabled: bool,
    pub discovery_period_seconds: u64,
    pub dbus_method_call_timeout_seconds: u64,
}

/// A Bluetooth capture: its configuration and its stable interface name.
#[derive(Debug)]
pub struct Capture {
    pub configuration: BluetoothInterface,
    /// The stable config key (`bt-<address>`), which metrics are keyed by.
    /// It is not the resolved hci device name, which can change over the
    /// life of the capture.
    pub interface_name: String,
}

/// Bluetooth discovery transports.
#[derive(Debug, Clone, Copy, PartialEq, Eq, Structural)]
pub enum Transport {
    /// Bluetooth Classic.
    BrEdr,
    /// Bluetooth Low Energy.
    Le,
}

impl Transport {
    /// The name BlueZ's discovery filter knows the transport by.
    pub fn name(&self) -> (res: &'static str)
        ensures
            res@ == (match *self {
                Transport::BrEdr => "bredr"@,
                Transport::Le => "le"@,
            }),
    {
        match self {
            Transport::BrEdr => "bredr",
            Transport::Le => "le",
        }
    }
}

/// Seconds to sleep after a cycle, given the number of consecutive failed
/// cycles: one second without failures, then doubling per failure from two
/// seconds, capped at `MAX_BACKOFF_SECONDS`.
pub open spec fn spec_backoff(consecutive_failures: u32) -> u64 {
    if consecutive_failures == 0 {
        1
    } else if consecutive_failures == 1 {
        2
    } else if consecutive_failures == 2 {
        4
    } else if consecutive_failures == 3 {
        8
    } else if consecutive_failures == 4 {
        16
    } else if consecutive_failures == 5 {
        32
    } else {
        MAX_BACKOFF_SECONDS
    }
}

/// The state the capture loop keeps between cycles.
#[derive(Debug)]
pub struct CaptureLoop {
    pub consecutive_failures: u32,
    /// The hci device name the adapter was last resolved to.
    pub last_known_hci: Option<String>,
}

/// What a capture cycle does once the adapter is resolved.
#[derive(Debug)]
pub struct DiscoveryPlan {
    /// The adapter resolved to a different hci name than before; this is
    /// announced.
    pub announce_new_hci: bool,
    /// The transports to discover on, in order.
    pub transports: Vec<Transport>,
}

/// One step of handing discovered devices on.
#[derive(Debug, Clone, PartialEq, Eq)]
pub enum PipelineAction {
    /// Send the device with this index to the device pipeline.
    SendDevice { index: usize, len: u32 },
    /// Count this many processed bytes.
    IncrementProcessedBytes { bytes: u32 },
    /// Record a received item on the capture with this key.
    UpdateCapture { interface_name: String },
}

/// An object BlueZ manages: its path, and the `Address` of its adapter
/// interface when it has one with a string address.
#[derive(Debug, Clone)]
pub struct AdapterObject {
    pub path: String,
    pub address: Option<String>,
}

/// An ASCII capital letter in lower case; any other character unchanged.
pub open spec fn ascii_fold(c: char) -> char {
    if 'A' <= c <= 'Z' {
        ((c as int) + 32) as char
    } else {
        c
    }
}

/// Equal, ignoring the case of ASCII letters.
pub open spec fn eq_ignore_ascii_case(a: Seq<char>, b: Seq<char>) -> bool {
    a.len() == b.len() && forall|k: int| 0 <= k < a.len() ==> ascii_fold(#[trigger] a[k]) == ascii_fold(b[k])
}

/// The hci name of the first object, in order, whose adapter address
/// matches `bd_address` (ignoring ASCII case) and whose path is an adapter
/// path.
pub open spec fn spec_select_hci(objects: Seq<AdapterObject>, bd_address: Seq<char>) -> Option<Seq<char>>
    decreases objects.len(),
{
    if objects.len() == 0 {
        None
    } else {
        let o = objects[0];
        let prefix = "/org/bluez/"@;
        match o.address {
            Some(a) if eq_ignore_ascii_case(a@, bd_address) && prefix.is_prefix_of(o.path@) => Some(
                o.path@.skip(prefix.len() as int),
            ),
            _ => spec_select_hci(objects.skip(1), bd_address),
        }
    }
}

fn fold_char(c: char) -> (res: char)
    ensures
        res == ascii_fold(c),
{
    if 'A' <= c && c <= 'Z' {
        ((c as u8) + 32) as char
    } else {
        c
    }
}

fn chars_eq_ignore_ascii_case(a: &Vec<char>, b: &Vec<char>) -> (res: bool)
    ensures
        res == eq_ignore_ascii_case(a@, b@),
{
    if a.len() != b.len() {
        return false;
    }
    let mut k: usize = 0;
    while k < a.len()
        invariant
            a.len() == b.len(),
            k <= a.len(),
            forall|j: int| 0 <= j < k ==> ascii_fold(#[trigger] a@[j]) == ascii_fold(b@[j]),
        decreases a.len() - k,
    {
        if fold_char(a[k]) != fold_char(b[k]) {
            return false;
        }
        k += 1;
    }
    true
}

/// Whether `prefix` is a prefix of `s`.
fn chars_starts_with(s: &Vec<char>, prefix: &Vec<char>) -> (res: bool)
    ensures
        res == prefix@.is_prefix_of(s@),
{
    if prefix.len() > s.len() {
        return false;
    }
    let mut k: usize = 0;
    while k < prefix.len()
        invariant
            prefix.len() <= s.len(),
            k <= prefix.len(),
            forall|j: int| 0 <= j < k ==> prefix@[j] == s@[j],
        decreases prefix.len() - k,
    {
        if prefix[k] != s[k] {
            return false;
        }
        k += 1;
    }
    assert(s@.subrange(0, prefix@.len() as int) =~= prefix@);
    true
}

/// The characters of `s` from index `start` on.
fn chars_from(s: &Vec<char>, start: usize) -> (res: Vec<char>)
    requires
        start <= s.len(),
    ensures
        res@ == s@.skip(start as int),
{
    let mut res: Vec<char> = Vec::new();
    let mut k: usize = start;
    while k < s.len()
        invariant
            start <= k <= s.len(),
            res@ == s@.subrange(start as int, k as int),
        decreases s.len() - k,
    {
        res.push(s[k]);
        assert(res@ =~= s@.subrange(start as int, k + 1));
        k += 1;
    }
    assert(res@ =~= s@.skip(start as int));
    res
}

impl CaptureLoop {
    /// The state at the start of a capture: no failures yet, no hci name.
    pub fn new() -> (res: CaptureLoop)
        ensures
            res.consecutive_failures == 0,
            res.last_known_hci is None,
    {
        CaptureLoop { consecutive_failures: 0, last_known_hci: None }
    }

    /// The adapter could not be resolved: one more consecutive failure.
    /// Returns the seconds to sleep before the next cycle.
    pub fn on_resolve_failed(&mut self) -> (sleep_seconds: u64)
        requires
            old(self).consecutive_failures < u32::MAX,
        ensures
            final(self).consecutive_failures == old(self).consecutive_failures + 1,
            opt_string_view(final(self).last_known_hci) == opt_string_view(old(self).last_known_hci),
            sleep_seconds == spec_backoff(final(self).consecutive_failures),
    {
        self.consecutive_failures = self.consecutive_failures + 1;
        Capture::backoff(self.consecutive_failures)
    }

    /// The adapter resolved to hci name `name`: a new name is remembered
    /// and announced, and discovery runs on the enabled transports,
    /// Classic first.
    pub fn on_resolved(&mut self, name: &str, configuration: &BluetoothInterface) -> (plan: DiscoveryPlan)
        ensures
            final(self).consecutive_failures == old(self).consecutive_failures,
            opt_string_view(final(self).last_known_hci) == Some(name@),
            plan.announce_new_hci == (opt_string_view(old(self).last_known_hci) != Some(name@)),
            plan.transports@ == (if configuration.bt_classic_enabled { seq![Transport::BrEdr] } else { Seq::empty() })
                + (if configuration.bt_le_enabled { seq![Transport::Le] } else { Seq::empty() }),
    {
        let same = match &self.last_known_hci {
            Some(known) => {
                let a = str_chars(known.as_str());
                let b = str_chars(name);
                chars_equal(&a, &b)
            },
            None => false,
        };
        if !same {
            self.last_known_hci = Some(string_from_chars(&str_chars(name)));
        }
        let mut transports: Vec<Transport> = Vec::new();
        if configuration.bt_classic_enabled {
            transports.push(Transport::BrEdr);
        }
        if configuration.bt_le_enabled {
            transports.push(Transport::Le);
        }
        assert(transports@ =~= (if configuration.bt_classic_enabled { seq![Transport::BrEdr] } else { Seq::empty() })
            + (if configuration.bt_le_enabled { seq![Transport::Le] } else { Seq::empty() }));
        DiscoveryPlan { announce_new_hci: !same, transports }
    }

    /// A discovery cycle ended. A failed cycle (discovery panicked, or a
    /// D-Bus/HCI call of the cycle returned an error) is one more
    /// consecutive failure; a cycle without failure resets the count.
    /// Returns the seconds to sleep before the next cycle.
    pub fn on_cycle_finished(&mut self, failed: bool) -> (sleep_seconds: u64)
        requires
            failed ==> old(self).consecutive_failures < u32::MAX,
        ensures
            final(self).consecutive_failures == (if failed { old(self).consecutive_failures + 1 } else { 0 }),
            opt_string_view(final(self).last_known_hci) == opt_string_view(old(self).last_known_hci),
            sleep_seconds == spec_backoff(final(self).consecutive_failures),
    {
        if failed {
            self.consecutive_failures = self.consecutive_failures + 1;
        } else {
            self.consecutive_failures = 0;
        }
        Capture::backoff(self.consecutive_failures)
    }
}

/// The text of an optional string.
pub open spec fn opt_string_view(o: Option<String>) -> Option<Seq<char>> {
    match o {
        Some(s) => Some(s@),
        None => None,
    }
}

fn chars_equal(a: &Vec<char>, b: &Vec<char>) -> (res: bool)
    ensures
        res == (a@ == b@),
{
    if a.len() != b.len() {
        return false;
    }
    let mut k: usize = 0;
    while k < a.len()
        invariant
            a.len() == b.len(),
            k <= a.len(),
            forall|j: int| 0 <= j < k ==> a@[j] == b@[j],
        decreases a.len() - k,
    {
        if a[k] != b[k] {
            return false;
        }
        k += 1;
    }
    assert(a@ =~= b@);
    true
}

/// `v` narrowed to an `i16`: values above `i16::MAX` are rejected, lower
/// ones are cast (wrapping below `i16::MIN`).
pub open spec fn spec_narrow_i16(v: Option<i64>) -> Option<i16> {
    match v {
        Some(x) => if x <= i16::MAX { Some(x as i16) } else { None },
        None => None,
    }
}

/// `v` narrowed to a `u32`: values above `u32::MAX` are rejected.
pub open spec fn spec_narrow_u32(v: Option<u64>) -> Option<u32> {
    match v {
        Some(x) => if x <= u32::MAX { Some(x as u32) } else { None },
        None => None,
    }
}

/// The strings among `items`, in order.
pub open spec fn strings_only(items: Seq<Option<String>>) -> Seq<Seq<char>>
    decreases items.len(),
{
    if items.len() == 0 {
        Seq::empty()
    } else {
        match items.last() {
            Some(s) => strings_only(items.drop_last()).push(s@),
            None => strings_only(items.drop_last()),
        }
    }
}

/// The numbers among `items`, each cast to a byte, in order.
pub open spec fn bytes_only(items: Seq<Option<u64>>) -> Seq<u8>
    decreases items.len(),
{
    if items.len() == 0 {
        Seq::empty()
    } else {
        match items.last() {
            Some(x) => bytes_only(items.drop_last()).push(x as u8),
            None => bytes_only(items.drop_last()),
        }
    }
}

/// The texts of a sequence of strings.
pub open spec fn strings_view(v: Seq<String>) -> Seq<Seq<char>> {
    v.map_values(|s: String| s@)
}

impl Capture {
    /// Seconds to sleep after a cycle; see `spec_backoff`.
    pub fn backoff(consecutive_failures: u32) -> (res: u64)
        ensures
            res == spec_backoff(consecutive_failures),
    {
        if consecutive_failures == 0 {
            1
        } else {
            // Shift amount capped at 6 (1 << 6 = 64s) so this can never overflow.
            let shift: u32 = if consecutive_failures < 6 { consecutive_failures } else { 6 };
            assert(1u64 << 1u32 == 2 && 1u64 << 2u32 == 4 && 1u64 << 3u32 == 8 && 1u64 << 4u32 == 16
                && 1u64 << 5u32 == 32 && 1u64 << 6u32 == 64) by (bit_vector);
            let secs: u64 = 1u64 << shift;
            if secs < MAX_BACKOFF_SECONDS {
                secs
            } else {
                MAX_BACKOFF_SECONDS
            }
        }
    }

    /// The hci device name of the adapter whose address is `bd_address`
    /// (ignoring ASCII case), among the objects BlueZ manages, taken in
    /// order; `None` when no adapter matches.
    pub fn resolve_hci_by_address(objects: &Vec<AdapterObject>, bd_address: &str) -> (res: Option<String>)
        ensures
            opt_string_view(res) == spec_select_hci(objects@, bd_address@),
    {
        let prefix = str_chars("/org/bluez/");
        let wanted = str_chars(bd_address);
        let mut i: usize = 0;
        assert(objects@.skip(0) =~= objects@);
        while i < objects.len()
            invariant
                i <= objects.len(),
                prefix@ == "/org/bluez/"@,
                wanted@ == bd_address@,
                spec_select_hci(objects@, bd_address@) == spec_select_hci(objects@.skip(i as int), bd_address@),
            decreases objects.len() - i,
        {
            let o = &objects[i];
            proof {
                assert(objects@.skip(i as int)[0] == objects@[i as int]);
                assert(objects@.skip(i as int).skip(1) =~= objects@.skip(i + 1));
            }
            match &o.address {
                Some(address) => {
                    let a = str_chars(address.as_str());
                    let path = str_chars(o.path.as_str());
                    if chars_eq_ignore_ascii_case(&a, &wanted) && chars_starts_with(&path, &prefix) {
                        let hci = chars_from(&path, prefix.len());
                        return Some(string_from_chars(&hci));
                    }
                },
                None => {},
            }
            i += 1;
        }
        None
    }

    /// Whether `path` names a device discovered by the adapter with hci
    /// name `device_name`.
    pub fn is_device_path(path: &str, device_name: &str) -> (res: bool)
        ensures
            res == ("/org/bluez/"@ + device_name@ + "/dev_"@).is_prefix_of(path@),
    {
        let mut prefix = str_chars("/org/bluez/");
        let mut name = str_chars(device_name);
        let mut dev = str_chars("/dev_");
        prefix.append(&mut name);
        prefix.append(&mut dev);
        let p = str_chars(path);
        chars_starts_with(&p, &prefix)
    }

    /// An optional integer property narrowed to an `i16`; see
    /// `spec_narrow_i16`.
    pub fn parse_optional_i16_prop(value: Option<i64>) -> (res: Option<i16>)
        ensures
            res == spec_narrow_i16(value),
    {
        match value {
            Some(val) => {
                if val <= i16::MAX as i64 {
                    Some(val as i16)
                } else {
                    None
                }
            },
            None => None,
        }
    }

    /// An optional integer property narrowed to a `u32`; see
    /// `spec_narrow_u32`.
    pub fn parse_optional_u32_prop(value: Option<u64>) -> (res: Option<u32>)
        ensures
            res == spec_narrow_u32(value),
    {
        match value {
            Some(val) => {
                if val <= u32::MAX as u64 {
                    Some(val as u32)
                } else {
                    None
                }
            },
            None => None,
        }
    }

    /// A mandatory string property, or `"Invalid"` when it is missing or
    /// not a string.
    pub fn parse_mandatory_string_prop(value: Option<String>) -> (res: String)
        ensures
            res@ == (match value {
                Some(s) => s@,
                None => "Invalid"@,
            }),
    {
        match value {
            Some(s) => s,
            None => "Invalid".to_owned(),
        }
    }

    /// The string elements of an array property, skipping elements that
    /// are not strings; `None` when the property is not an array or has no
    /// string element.
    pub fn parse_optional_string_vector(values: Option<Vec<Option<String>>>) -> (res: Option<Vec<String>>)
        ensures
            match values {
                Some(items) => if strings_only(items@).len() == 0 {
                    res is None
                } else {
                    res matches Some(v) && strings_view(v@) == strings_only(items@)
                },
                None => res is None,
            },
    {
        match values {
            Some(items) => {
                let mut data: Vec<String> = Vec::new();
                let mut i: usize = 0;
                while i < items.len()
                    invariant
                        i <= items.len(),
                        strings_view(data@) == strings_only(items@.take(i as int)),
                    decreases items.len() - i,
                {
                    assert(items@.take(i + 1).drop_last() =~= items@.take(i as int));
                    match &items[i] {
                        Some(s) => {
                            let ghost before = data@;
                            data.push(s.clone());
                            assert(strings_view(data@) =~= strings_view(before).push(s@));
                        },
                        None => {},
                    }
                    i += 1;
                }
                assert(items@.take(items.len() as int) =~= items@);
                if data.len() == 0 {
                    None
                } else {
                    Some(data)
                }
            },
            None => None,
        }
    }

    /// Manufacturer data: the company ID, cast to a `u16`, and the numeric
    /// elements of the data array, each cast to a byte.
    pub fn parse_manufacturer_data(company_id: Option<u64>, data: Option<Vec<Option<u64>>>) -> (res: (Option<u16>, Option<Vec<u8>>))
        ensures
            res.0 == (match company_id {
                Some(x) => Some(x as u16),
                None => None,
            }),
            match data {
                Some(items) => res.1 matches Some(v) && v@ == bytes_only(items@),
                None => res.1 is None,
            },
    {
        let company = match company_id {
            Some(x) => Some(x as u16),
            None => None,
        };
        let bytes = match data {
            Some(items) => {
                let mut out: Vec<u8> = Vec::new();
                let mut i: usize = 0;
                while i < items.len()
                    invariant
                        i <= items.len(),
                        out@ == bytes_only(items@.take(i as int)),
                    decreases items.len() - i,
                {
                    assert(items@.take(i + 1).drop_last() =~= items@.take(i as int));
                    match items[i] {
                        Some(x) => {
                            out.push(x as u8);
                        },
                        None => {},
                    }
                    i += 1;
                }
                assert(items@.take(items.len() as int) =~= items@);
                Some(out)
            },
            None => None,
        };
        (company, bytes)
    }

    /// The steps that hand discovered devices on: for each device, in
    /// order, it is sent to the device pipeline, its size is counted as
    /// processed bytes, and one received item is recorded on this
    /// capture's stable interface name (never on the hci device name).
    pub fn discovered_devices_to_pipeline(&self, device_sizes: &Vec<u32>) -> (res: Vec<PipelineAction>)
        ensures
            res@.len() == 3 * device_sizes@.len(),
            forall|i: int| 0 <= i < device_sizes@.len() ==> {
                &&& #[trigger] res@[3 * i] == PipelineAction::SendDevice { index: i as usize, len: DEVICE_PIPELINE_LEN }
                &&& res@[3 * i + 1] == PipelineAction::IncrementProcessedBytes { bytes: device_sizes@[i] }
                &&& res@[3 * i + 2] matches PipelineAction::UpdateCapture { interface_name } && interface_name@ == self.interface_name@
            },
    {
        let mut actions: Vec<PipelineAction> = Vec::new();
        let mut i: usize = 0;
        while i < device_sizes.len()
            invariant
                i <= device_sizes.len(),
                actions@.len() == 3 * i,
                forall|k: int| 0 <= k < i ==> {
                    &&& #[trigger] actions@[3 * k] == PipelineAction::SendDevice { index: k as usize, len: DEVICE_PIPELINE_LEN }
                    &&& actions@[3 * k + 1] == PipelineAction::IncrementProcessedBytes { bytes: device_sizes@[k] }
                    &&& actions@[3 * k + 2] matches PipelineAction::UpdateCapture { interface_name } && interface_name@ == self.interface_name@
                },
            decreases device_sizes.len() - i,
        {
            let ghost before = actions@;
            actions.push(PipelineAction::SendDevice { index: i, len: DEVICE_PIPELINE_LEN });
            actions.push(PipelineAction::IncrementProcessedBytes { bytes: device_sizes[i] });
            actions.push(PipelineAction::UpdateCapture { interface_name: self.interface_name.clone() });
            assert forall|k: int| 0 <= k < i + 1 implies {
                &&& #[trigger] actions@[3 * k] == PipelineAction::SendDevice { index: k as usize, len: DEVICE_PIPELINE_LEN }
                &&& actions@[3 * k + 1] == PipelineAction::IncrementProcessedBytes { bytes: device_sizes@[k] }
                &&& actions@[3 * k + 2] matches PipelineAction::UpdateCapture { interface_name } && interface_name@ == self.interface_name@
            } by {
                if k < i {
                    assert(actions@[3 * k] == before[3 * k]);
                    assert(actions@[3 * k + 1] == before[3 * k + 1]);
                    assert(actions@[3 * k + 2] == before[3 * k + 2]);
                }
            }
            i += 1;
        }
        actions
    }
}

/// The backoff never exceeds `MAX_BACKOFF_SECONDS`, is one second after a
/// cycle without failure, and grows with the number of consecutive
/// failures.
pub proof fn lemma_backoff_bounded_and_monotone(a: u32, b: u32)
    ensures
        1 <= spec_backoff(a) <= MAX_BACKOFF_SECONDS,
        spec_backoff(0) == 1,
        a <= b ==> spec_backoff(a) <= spec_backoff(b),
{
}

/// The consecutive-failure count after a series of cycles, starting from
/// `count`: each failed cycle (adapter not found, a D-Bus/HCI call failed,
/// or discovery panicked) adds one, each cycle without failure resets it,
/// as `on_resolve_failed` and `on_cycle_finished` do.
pub open spec fn failures_after(count: int, cycles: Seq<bool>) -> int
    decreases cycles.len(),
{
    if cycles.len() == 0 {
        count
    } else {
        let before = failures_after(count, cycles.drop_last());
        if cycles.last() { before + 1 } else { 0 }
    }
}

/// After `k` consecutive failed cycles, preceded by a cycle without failure
/// or by the start of the capture, the count is `k`, so the sleep that ends
/// the last of them is `spec_backoff(k)`: 2, 4, 8, ... seconds, capped at
/// `MAX_BACKOFF_SECONDS`; after a cycle without failure it is one second.
pub proof fn lemma_backoff_after_consecutive_failures(cycles: Seq<bool>, k: int)
    requires
        0 <= k <= cycles.len(),
        forall|j: int| cycles.len() - k <= j < cycles.len() ==> #[trigger] cycles[j],
        k < cycles.len() ==> !cycles[cycles.len() - k - 1],
    ensures
        failures_after(0, cycles) == k,
        k <= u32::MAX ==> spec_backoff(failures_after(0, cycles) as u32) == spec_backoff(k as u32),
        k == 0 ==> spec_backoff(failures_after(0, cycles) as u32) == 1,
    decreases k,
{
    if k > 0 {
        let prev = cycles.drop_last();
        assert forall|j: int| prev.len() - (k - 1) <= j < prev.len() implies #[trigger] prev[j] by {
            assert(prev[j] == cycles[j]);
        }
        if k - 1 < prev.len() {
            assert(prev[prev.len() - (k - 1) - 1] == cycles[cycles.len() - k - 1]);
        }
        lemma_backoff_after_consecutive_failures(prev, k - 1);
        assert(cycles.last() == cycles[cycles.len() - 1]);
    } else if cycles.len() > 0 {
        assert(!cycles.last());
    }
}

} // verus!
