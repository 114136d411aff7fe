//! The service order listing: which device comes at which rank.

use crate::error::{PortError, MAX_RANK};
use crate::text::{last_token, last_token_of, lines, text_lines, texts};
use vstd::prelude::*;

verus! {

/// The device that a line of the listing names: the last field, separated by
/// ASCII white space, of what stands before the closing parenthesis that
/// ends the line. A line that does not end with a closing parenthesis names
/// no device, nor does one that has no field before it.
pub open spec fn line_device(line: Seq<char>) -> Option<Seq<char>> {
    if line.len() == 0 || line.last() != ')' {
        None
    } else {
        last_token_of(line.drop_last())
    }
}

/// The first `count` of `lines` each name a device.
pub open spec fn lines_name_devices(lines: Seq<Seq<char>>, count: int) -> bool {
    forall|i: int| 0 <= i < count && i < lines.len() ==> (#[trigger] line_device(lines[i])) is Some
}

/// The devices that `lines` name, line by line.
pub open spec fn listed_devices(lines: Seq<Seq<char>>) -> Seq<Seq<char>> {
    lines.map_values(|line: Seq<char>| line_device(line)->0)
}

/// The devices that the lines of `listing` name.
pub open spec fn listing_devices(listing: Seq<char>) -> Seq<Seq<char>> {
    listed_devices(text_lines(listing))
}

/// Reading `listing` comes to `outcome`.
///
/// It comes to the devices of its lines where there are at most `MAX_RANK`
/// lines and each names a device: the ranks given out then all lie below
/// `MAX_RANK`. It comes to `MalformedServiceOrderLine` for the first line
/// that names none, where the index of that line is at most `MAX_RANK`. It
/// comes to `ServiceOrderOverflow` where there are more than `MAX_RANK`
/// lines and the first `MAX_RANK + 1` each name a device.
pub open spec fn listing_gives(
    listing: Seq<char>,
    outcome: Result<Seq<Seq<char>>, PortError>,
) -> bool {
    let lines = text_lines(listing);
    match outcome {
        Ok(devices) => {
            &&& lines.len() <= MAX_RANK
            &&& lines_name_devices(lines, lines.len() as int)
            &&& devices == listed_devices(lines)
        },
        Err(PortError::MalformedServiceOrderLine { line }) => {
            &&& line < lines.len()
            &&& line <= MAX_RANK
            &&& line_device(lines[line as int]) is None
            &&& lines_name_devices(lines, line as int)
        },
        Err(PortError::ServiceOrderOverflow) => {
            &&& lines.len() > MAX_RANK
            &&& lines_name_devices(lines, MAX_RANK + 1)
        },
        Err(PortError::ExternalCommandFailure) => false,
    }
}

/// The outcome of a reading, with the devices in place of the value that
/// holds them.
pub open spec fn outcome_of(order: Result<ServiceOrder, PortError>) -> Result<
    Seq<Seq<char>>,
    PortError,
> {
    match order {
        Ok(found) => Ok(found@),
        Err(e) => Err(e),
    }
}

/// A listing is read only where every line ends with a closing parenthesis
/// and has a field before it.
pub proof fn lemma_read_lines_are_closed(listing: Seq<char>, devices: Seq<Seq<char>>, i: int)
    requires
        listing_gives(listing, Ok(devices)),
        0 <= i < text_lines(listing).len(),
    ensures
        text_lines(listing)[i].len() > 0,
        text_lines(listing)[i].last() == ')',
        last_token_of(text_lines(listing)[i].drop_last()) == Some(devices[i]),
{
    assert(line_device(text_lines(listing)[i]) is Some);
}

/// A listing has one outcome only.
pub proof fn lemma_listing_outcome_unique(
    listing: Seq<char>,
    first: Result<Seq<Seq<char>>, PortError>,
    second: Result<Seq<Seq<char>>, PortError>,
)
    requires
        listing_gives(listing, first),
        listing_gives(listing, second),
    ensures
        first == second,
{
    let lines = text_lines(listing);
    if let Err(PortError::MalformedServiceOrderLine { line }) = first {
        assert(line_device(lines[line as int]) is None);
    }
    if let Err(PortError::MalformedServiceOrderLine { line }) = second {
        assert(line_device(lines[line as int]) is None);
    }
}

/// The rank of `device` among `devices`: the index of its last occurrence,
/// and `MAX_RANK` where it does not occur.
pub open spec fn rank_of(devices: Seq<Seq<char>>, device: Seq<char>) -> int
    decreases devices.len(),
{
    if devices.len() == 0 {
        MAX_RANK as int
    } else if devices.last() == device {
        devices.len() - 1
    } else {
        rank_of(devices.drop_last(), device)
    }
}

/// No device occurs twice in `devices`.
pub open spec fn distinct(devices: Seq<Seq<char>>) -> bool {
    forall|i: int, j: int| 0 <= i < j < devices.len() ==> devices[i] != devices[j]
}

/// What `rank_of` is, said without recursion: a device that occurs has the
/// index of its last occurrence, one that does not has `MAX_RANK`.
pub proof fn lemma_rank_of(devices: Seq<Seq<char>>, device: Seq<char>)
    ensures
        devices.contains(device) ==> {
            &&& 0 <= rank_of(devices, device) < devices.len()
            &&& devices[rank_of(devices, device)] == device
            &&& forall|j: int|
                rank_of(devices, device) < j < devices.len() ==> devices[j] != device
        },
        !devices.contains(device) ==> rank_of(devices, device) == MAX_RANK,
    decreases devices.len(),
{
    if devices.len() > 0 {
        if devices.last() == device {
            assert(devices[devices.len() - 1] == device);
        } else {
            let front = devices.drop_last();
            lemma_rank_of(front, device);
            if devices.contains(device) {
                let i = choose|i: int| 0 <= i < devices.len() && devices[i] == device;
                assert(front[i] == device);
                assert(front.contains(device));
                let r = rank_of(front, device);
                assert(devices[r] == front[r]);
                assert forall|j: int| r < j < devices.len() implies devices[j] != device by {
                    if j < front.len() {
                        assert(devices[j] == front[j]);
                    }
                }
            } else {
                if front.contains(device) {
                    let i = choose|i: int| 0 <= i < front.len() && front[i] == device;
                    assert(devices[i] == device);
                }
            }
        }
    }
}

/// Where no device is listed twice, the ranks are the indices of the
/// listing, in listing order: the device of line `i` has rank `i`.
pub proof fn lemma_ranks_follow_listing(devices: Seq<Seq<char>>, i: int)
    requires
        distinct(devices),
        0 <= i < devices.len(),
    ensures
        rank_of(devices, devices[i]) == i,
{
    lemma_rank_of(devices, devices[i]);
    assert(devices.contains(devices[i]));
}

/// A listing of at most `MAX_RANK` lines gives every device that it names
/// a rank below `MAX_RANK`, the rank of every device that it does not name:
/// the rank tells whether the device is named.
pub proof fn lemma_listed_rank_below_absent(devices: Seq<Seq<char>>, device: Seq<char>)
    requires
        devices.len() <= MAX_RANK,
    ensures
        0 <= rank_of(devices, device) <= MAX_RANK,
        devices.contains(device) <==> rank_of(devices, device) < MAX_RANK,
{
    lemma_rank_of(devices, device);
}

/// The devices of a service order listing, in listing order.
pub struct ServiceOrder {
    devices: Vec<String>,
}

impl View for ServiceOrder {
    type V = Seq<Seq<char>>;

    closed spec fn view(&self) -> Seq<Seq<char>> {
        texts(self.devices@)
    }
}

impl ServiceOrder {
    #[verifier::type_invariant]
    spec fn fits(self) -> bool {
        self.devices.len() <= MAX_RANK
    }

    /// The number of lines of the listing. It is at most `MAX_RANK`.
    pub fn len(&self) -> (count: usize)
        ensures
            count == self@.len(),
            count <= MAX_RANK,
    {
        proof {
            use_type_invariant(self);
        }
        self.devices.len()
    }

    /// Whether the listing names `device`.
    pub fn contains_key(&self, device: &str) -> (listed: bool)
        ensures
            listed == self@.contains(device@),
    {
        let wanted = device.to_owned();
        let mut i: usize = 0;
        while i < self.devices.len()
            invariant
                i <= self.devices.len(),
                wanted@ == device@,
                forall|j: int| 0 <= j < i ==> self@[j] != device@,
            decreases self.devices.len() - i,
        {
            if self.devices[i] == wanted {
                assert(self@[i as int] == device@);
                return true;
            }
            i += 1;
        }
        false
    }

    /// The rank of `device`: the index of the last line that names it, and
    /// `MAX_RANK` where no line does.
    pub fn rank(&self, device: &str) -> (rank: u8)
        ensures
            rank == rank_of(self@, device@),
    {
        proof {
            use_type_invariant(self);
        }
        let wanted = device.to_owned();
        let mut i: usize = self.devices.len();
        assert(self@.take(i as int) =~= self@);
        while i > 0
            invariant
                i <= self.devices.len() <= MAX_RANK,
                wanted@ == device@,
                rank_of(self@, device@) == rank_of(self@.take(i as int), device@),
            decreases i,
        {
            i -= 1;
            assert(self@.take(i + 1).drop_last() =~= self@.take(i as int));
            if self.devices[i] == wanted {
                return i as u8;
            }
        }
        MAX_RANK
    }
}

/// Reads a service order listing. Each line names one device, see
/// [`line_device`]; the device of line `i` gets rank `i`.
///
/// The lines are taken in order and the first one that cannot be taken
/// stops the reading: a line that names no device gives
/// `MalformedServiceOrderLine` with its index, and a line whose rank would
/// reach `MAX_RANK` gives `ServiceOrderOverflow`. Nothing is kept of the
/// lines before it.
pub fn get_service_order(listing: &str) -> (order: Result<ServiceOrder, PortError>)
    ensures
        listing_gives(listing@, outcome_of(order)),
{
    let found = lines(listing);
    let ghost all = text_lines(listing@);
    let mut devices: Vec<String> = Vec::new();
    let mut i: usize = 0;
    while i < found.len()
        invariant
            all == text_lines(listing@),
            all == texts(found@),
            i <= found.len(),
            i <= MAX_RANK,
            devices.len() == i,
            lines_name_devices(all, i as int),
            texts(devices@) == listed_devices(all.take(i as int)),
        decreases found.len() - i,
    {
        let line = found[i].as_str();
        assert(line@ == all[i as int]);
        if line.is_empty() {
            return Err(PortError::MalformedServiceOrderLine { line: i });
        }
        let width = line.unicode_len();
        if line.get_char(width - 1) != ')' {
            return Err(PortError::MalformedServiceOrderLine { line: i });
        }
        let body = line.substring_char(0, width - 1);
        assert(body@ =~= line@.drop_last());
        match last_token(body) {
            None => {
                return Err(PortError::MalformedServiceOrderLine { line: i });
            },
            Some(device) => {
                if i >= MAX_RANK as usize {
                    return Err(PortError::ServiceOrderOverflow);
                }
                let ghost before = texts(devices@);
                devices.push(device);
                assert(texts(devices@) =~= before.push(device@));
                assert(listed_devices(all.take(i + 1)) =~= listed_devices(
                    all.take(i as int),
                ).push(line_device(all[i as int])->0));
            },
        }
        i += 1;
    }
    assert(all.take(i as int) =~= all);
    Ok(ServiceOrder { devices })
}

} // verus!
