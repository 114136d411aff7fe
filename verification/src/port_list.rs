//! The ports of the host: their order of service and the ones in use.

use crate::error::{PortError, MAX_RANK};
use crate::port::{speed_label, HardwarePort, PortModel};
use crate::registry::{
    entry_models, get_hw_ports, lemma_entries_read_back, lemma_trailing_text_ignored,
    registry_entries, registry_text, single_line_fields, EntryModel, PortEntry,
};
use crate::service_order::{
    get_service_order, lemma_rank_of, listing_devices, listing_gives, rank_of, ServiceOrder,
};
use crate::text::{texts, trimmed};
use vstd::prelude::*;

verus! {

/// The port of a registry entry whose device gave `ip_output` to the
/// address query and `link_status` to the link status query: the address is
/// the trimmed output, the speed follows from the status and the address,
/// and the rank is zero until the service order is known.
pub open spec fn port_of(
    entry: EntryModel,
    ip_output: Seq<char>,
    link_status: Seq<char>,
) -> PortModel {
    PortModel {
        name: entry.name,
        ip_address: trimmed(ip_output),
        device: entry.device,
        speed: speed_label(link_status, trimmed(ip_output)),
        mac_address: entry.mac_address,
        service_order: 0,
    }
}

/// One port for each of `entries`, in their order; the outputs of the two
/// queries come in the same order.
pub open spec fn ports_of(
    entries: Seq<EntryModel>,
    ip_outputs: Seq<Seq<char>>,
    link_statuses: Seq<Seq<char>>,
) -> Seq<PortModel> {
    Seq::new(entries.len(), |i: int| port_of(entries[i], ip_outputs[i], link_statuses[i]))
}

/// A registry of `entries`, written one behind the other, each field a
/// single line, gives one port for each entry, in the order of the text,
/// with the name, the device and the hardware address of the entry.
pub proof fn lemma_list_keeps_registry_order(
    entries: Seq<EntryModel>,
    ip_outputs: Seq<Seq<char>>,
    link_statuses: Seq<Seq<char>>,
)
    requires
        forall|i: int| 0 <= i < entries.len() ==> single_line_fields(#[trigger] entries[i]),
    ensures
        ports_of(registry_entries(registry_text(entries)), ip_outputs, link_statuses).len()
            == entries.len(),
        forall|i: int|
            0 <= i < entries.len() ==> {
                let port = #[trigger] ports_of(
                    registry_entries(registry_text(entries)),
                    ip_outputs,
                    link_statuses,
                )[i];
                &&& port.name == entries[i].name
                &&& port.device == entries[i].device
                &&& port.mac_address == entries[i].mac_address
            },
{
    lemma_entries_read_back(entries);
}

/// Text without entries behind a registry changes nothing of the list:
/// with the same outputs of the queries, the ports are the same.
pub proof fn lemma_list_ignores_trailing_text(
    entries: Seq<EntryModel>,
    trailing: Seq<char>,
    ip_outputs: Seq<Seq<char>>,
    link_statuses: Seq<Seq<char>>,
)
    requires
        forall|i: int| 0 <= i < entries.len() ==> single_line_fields(#[trigger] entries[i]),
        registry_entries(trailing).len() == 0,
    ensures
        ports_of(registry_entries(registry_text(entries) + trailing), ip_outputs, link_statuses)
            == ports_of(registry_entries(registry_text(entries)), ip_outputs, link_statuses),
        ports_of(
            registry_entries(registry_text(entries) + trailing),
            ip_outputs,
            link_statuses,
        ).len() == entries.len(),
{
    lemma_entries_read_back(entries);
    lemma_trailing_text_ignored(entries, trailing);
}

/// The models of a sequence of ports.
pub open spec fn models(ports: Seq<HardwarePort>) -> Seq<PortModel> {
    ports.map_values(|p: HardwarePort| p@)
}

/// The ports whose rank is `rank`.
pub open spec fn has_rank(rank: int) -> spec_fn(PortModel) -> bool {
    |p: PortModel| p.service_order == rank
}

/// The ports that have an address.
pub open spec fn active() -> spec_fn(PortModel) -> bool {
    |p: PortModel| p.is_active()
}

/// `ports`, each with the rank that its device has among `devices`.
pub open spec fn with_ranks(ports: Seq<PortModel>, devices: Seq<Seq<char>>) -> Seq<PortModel> {
    ports.map_values(|p: PortModel| p.ranked(rank_of(devices, p.device)))
}

/// No port comes before one of lower rank.
pub open spec fn is_sorted(ports: Seq<PortModel>) -> bool {
    forall|i: int, j: int|
        0 <= i < j < ports.len() ==> ports[i].service_order <= ports[j].service_order
}

/// `sorted` holds the ports of `ports` by ascending rank, and those of one
/// rank in the order that they have in `ports`.
pub open spec fn is_stable_sort_of(sorted: Seq<PortModel>, ports: Seq<PortModel>) -> bool {
    &&& sorted.len() == ports.len()
    &&& is_sorted(sorted)
    &&& forall|rank: int| #[trigger]
        sorted.filter(has_rank(rank)) == ports.filter(has_rank(rank))
}

/// Putting a port between the ports of rank up to its own and the ports of
/// higher rank keeps a stable sort one.
proof fn lemma_insert_keeps_stable_sort(
    front: Seq<PortModel>,
    back: Seq<PortModel>,
    port: PortModel,
    ports: Seq<PortModel>,
)
    requires
        is_stable_sort_of(front + back, ports),
        forall|i: int| 0 <= i < front.len() ==> front[i].service_order <= port.service_order,
        forall|i: int| 0 <= i < back.len() ==> back[i].service_order > port.service_order,
    ensures
        is_stable_sort_of(front + seq![port] + back, ports.push(port)),
{
    broadcast use Seq::filter_distributes_over_add;

    let merged = front + seq![port] + back;
    assert forall|i: int, j: int| 0 <= i < j < merged.len() implies merged[i].service_order
        <= merged[j].service_order by {
        if j < front.len() {
            assert(merged[i] == (front + back)[i] && merged[j] == (front + back)[j]);
        } else if i > front.len() {
            assert(merged[i] == (front + back)[i - 1] && merged[j] == (front + back)[j - 1]);
        }
    }
    assert forall|rank: int| #[trigger]
        merged.filter(has_rank(rank)) == ports.push(port).filter(has_rank(rank)) by {
        let keep = has_rank(rank);
        assert((front + back).filter(keep) == ports.filter(keep));
        assert(ports.push(port) =~= ports + seq![port]);
        reveal_with_fuel(Seq::filter, 2);
        assert(seq![port].drop_last() =~= Seq::<PortModel>::empty());
        if port.service_order == rank {
            assert(seq![port].filter(keep) =~= seq![port]);
            back.lemma_all_neg_filter_empty(keep);
            assert(back.filter(keep) =~= Seq::<PortModel>::empty());
            assert(merged.filter(keep) =~= front.filter(keep) + seq![port]);
            assert((front + back).filter(keep) =~= front.filter(keep));
        } else {
            assert(seq![port].filter(keep) =~= Seq::<PortModel>::empty());
            assert(merged.filter(keep) =~= front.filter(keep) + back.filter(keep));
        }
    }
}

/// Two sorted sequences with the same ports at each rank, in the same
/// order, are one sequence.
proof fn lemma_sorted_by_ranks(first: Seq<PortModel>, second: Seq<PortModel>)
    requires
        first.len() == second.len(),
        is_sorted(first),
        is_sorted(second),
        forall|rank: int| #[trigger]
            first.filter(has_rank(rank)) == second.filter(has_rank(rank)),
    ensures
        first == second,
    decreases first.len(),
{
    reveal(Seq::filter);
    if first.len() == 0 {
        assert(first =~= second);
    } else {
        let a = first.last();
        let b = second.last();
        let front_a = first.drop_last();
        let front_b = second.drop_last();
        assert(b.service_order <= a.service_order) by {
            let keep = has_rank(b.service_order);
            assert(second.filter(keep).last() == b);
            assert(first.filter(keep).contains(b));
            first.lemma_filter_contains_rev(keep, b);
            let i = choose|i: int| 0 <= i < first.len() && first[i] == b;
            assert(first[i].service_order <= first[first.len() - 1].service_order);
        }
        assert(a.service_order <= b.service_order) by {
            let keep = has_rank(a.service_order);
            assert(first.filter(keep).last() == a);
            assert(second.filter(keep).contains(a));
            second.lemma_filter_contains_rev(keep, a);
            let i = choose|i: int| 0 <= i < second.len() && second[i] == a;
            assert(second[i].service_order <= second[second.len() - 1].service_order);
        }
        let top = has_rank(a.service_order);
        assert(first.filter(top) == front_a.filter(top).push(a));
        assert(second.filter(top) == front_b.filter(top).push(b));
        assert(a == b) by {
            assert(first.filter(top).last() == second.filter(top).last());
        }
        assert forall|rank: int| #[trigger]
            front_a.filter(has_rank(rank)) == front_b.filter(has_rank(rank)) by {
            let keep = has_rank(rank);
            assert(first.filter(keep) == second.filter(keep));
            if rank == a.service_order {
                assert(front_a.filter(keep) =~= first.filter(keep).drop_last());
                assert(front_b.filter(keep) =~= second.filter(keep).drop_last());
            }
        }
        assert forall|i: int, j: int| 0 <= i < j < front_a.len() implies front_a[i].service_order
            <= front_a[j].service_order by {
            assert(front_a[i] == first[i] && front_a[j] == first[j]);
        }
        assert forall|i: int, j: int| 0 <= i < j < front_b.len() implies front_b[i].service_order
            <= front_b[j].service_order by {
            assert(front_b[i] == second[i] && front_b[j] == second[j]);
        }
        lemma_sorted_by_ranks(front_a, front_b);
        assert(first =~= front_a.push(a));
        assert(second =~= front_b.push(b));
    }
}

/// A sequence of ports has one stable sort only.
pub proof fn lemma_stable_sort_unique(
    first: Seq<PortModel>,
    second: Seq<PortModel>,
    ports: Seq<PortModel>,
)
    requires
        is_stable_sort_of(first, ports),
        is_stable_sort_of(second, ports),
    ensures
        first == second,
{
    assert forall|rank: int| #[trigger]
        first.filter(has_rank(rank)) == second.filter(has_rank(rank)) by {
        assert(first.filter(has_rank(rank)) == ports.filter(has_rank(rank)));
        assert(second.filter(has_rank(rank)) == ports.filter(has_rank(rank)));
    }
    lemma_sorted_by_ranks(first, second);
}

/// Each port of a stable sort is one of the ports that were sorted.
pub proof fn lemma_sorted_port_was_given(sorted: Seq<PortModel>, ports: Seq<PortModel>, i: int)
    requires
        is_stable_sort_of(sorted, ports),
        0 <= i < sorted.len(),
    ensures
        ports.contains(sorted[i]),
{
    let keep = has_rank(sorted[i].service_order);
    sorted.lemma_filter_contains(keep, i);
    assert(sorted.filter(keep) == ports.filter(keep));
    ports.lemma_filter_contains_rev(keep, sorted[i]);
}

/// The ports whose device is among `devices`.
pub open spec fn listed(devices: Seq<Seq<char>>) -> spec_fn(PortModel) -> bool {
    |p: PortModel| devices.contains(p.device)
}

/// The ports whose device is not among `devices`.
pub open spec fn unlisted(devices: Seq<Seq<char>>) -> spec_fn(PortModel) -> bool {
    |p: PortModel| !devices.contains(p.device)
}

/// In service order every port has the rank of its device, and a port whose
/// device the listing names stands before every port whose device it does
/// not name. (A listing that is read has at most `MAX_RANK` lines.)
pub proof fn lemma_listed_before_unlisted(
    sorted: Seq<PortModel>,
    ports: Seq<PortModel>,
    devices: Seq<Seq<char>>,
    i: int,
    j: int,
)
    requires
        devices.len() <= MAX_RANK,
        is_stable_sort_of(sorted, with_ranks(ports, devices)),
        0 <= i < sorted.len(),
        0 <= j < sorted.len(),
        devices.contains(sorted[i].device),
        !devices.contains(sorted[j].device),
    ensures
        sorted[i].service_order == rank_of(devices, sorted[i].device),
        sorted[j].service_order == MAX_RANK,
        sorted[i].service_order < sorted[j].service_order,
        i < j,
{
    let ranked = with_ranks(ports, devices);
    lemma_sorted_port_was_given(sorted, ranked, i);
    lemma_sorted_port_was_given(sorted, ranked, j);
    let a = choose|a: int| 0 <= a < ranked.len() && ranked[a] == sorted[i];
    let b = choose|b: int| 0 <= b < ranked.len() && ranked[b] == sorted[j];
    lemma_rank_of(devices, sorted[i].device);
    lemma_rank_of(devices, sorted[j].device);
}

/// In the service order that a listing gives, a port whose device the
/// listing names always stands before a port whose device it does not name.
pub proof fn lemma_service_order_puts_listed_first(
    sorted: Seq<PortModel>,
    ports: Seq<PortModel>,
    listing: Seq<char>,
    i: int,
    j: int,
)
    requires
        listing_gives(listing, Ok(listing_devices(listing))),
        is_stable_sort_of(sorted, with_ranks(ports, listing_devices(listing))),
        0 <= i < sorted.len(),
        0 <= j < sorted.len(),
        listing_devices(listing).contains(sorted[i].device),
        !listing_devices(listing).contains(sorted[j].device),
    ensures
        i < j,
{
    lemma_listed_before_unlisted(sorted, ports, listing_devices(listing), i, j);
}

/// Keeping what satisfies `inner` among what satisfies `outer` is keeping
/// what satisfies `inner`, where nothing satisfies `inner` alone.
proof fn lemma_filter_within(
    ports: Seq<PortModel>,
    inner: spec_fn(PortModel) -> bool,
    outer: spec_fn(PortModel) -> bool,
)
    requires
        forall|i: int| 0 <= i < ports.len() && inner(#[trigger] ports[i]) ==> outer(ports[i]),
    ensures
        ports.filter(outer).filter(inner) == ports.filter(inner),
    decreases ports.len(),
{
    reveal(Seq::filter);
    if ports.len() > 0 {
        let front = ports.drop_last();
        assert forall|i: int| 0 <= i < front.len() && inner(#[trigger] front[i]) implies outer(
            front[i],
        ) by {
            assert(front[i] == ports[i]);
        }
        lemma_filter_within(front, inner, outer);
        if outer(ports.last()) {
            assert(front.filter(outer).push(ports.last()).drop_last() =~= front.filter(outer));
        } else {
            assert(!inner(ports[ports.len() - 1]));
        }
    }
}

/// Sorting is stable for the ports that the listing does not name: in
/// service order they stand in the order that the registry gave them.
pub proof fn lemma_unlisted_keep_order(
    sorted: Seq<PortModel>,
    ports: Seq<PortModel>,
    devices: Seq<Seq<char>>,
)
    requires
        is_stable_sort_of(sorted, with_ranks(ports, devices)),
    ensures
        sorted.filter(unlisted(devices)) == with_ranks(ports, devices).filter(unlisted(devices)),
{
    let ranked = with_ranks(ports, devices);
    let last = has_rank(MAX_RANK as int);
    assert forall|i: int|
        0 <= i < ranked.len() && unlisted(devices)(#[trigger] ranked[i]) implies last(
        ranked[i],
    ) by {
        lemma_rank_of(devices, ranked[i].device);
    }
    assert forall|i: int|
        0 <= i < sorted.len() && unlisted(devices)(#[trigger] sorted[i]) implies last(
        sorted[i],
    ) by {
        lemma_sorted_port_was_given(sorted, ranked, i);
        let a = choose|a: int| 0 <= a < ranked.len() && ranked[a] == sorted[i];
        lemma_rank_of(devices, ranked[a].device);
    }
    lemma_filter_within(ranked, unlisted(devices), last);
    lemma_filter_within(sorted, unlisted(devices), last);
    assert(sorted.filter(last) == ranked.filter(last));
}

/// Filtering a list in which every port has an address changes nothing.
pub proof fn lemma_filter_all_active(ports: Seq<PortModel>)
    requires
        forall|i: int| 0 <= i < ports.len() ==> (#[trigger] ports[i]).is_active(),
    ensures
        ports.filter(active()) == ports,
    decreases ports.len(),
{
    reveal(Seq::filter);
    if ports.len() > 0 {
        let front = ports.drop_last();
        assert forall|i: int| 0 <= i < front.len() implies (#[trigger] front[i]).is_active() by {
            assert(front[i] == ports[i]);
        }
        lemma_filter_all_active(front);
        assert(ports[ports.len() - 1].is_active());
        assert(front.push(ports.last()) =~= ports);
    }
}

/// Filtering twice is filtering once.
pub proof fn lemma_filter_idempotent(ports: Seq<PortModel>)
    ensures
        ports.filter(active()).filter(active()) == ports.filter(active()),
{
    let kept = ports.filter(active());
    assert forall|i: int| 0 <= i < kept.len() implies (#[trigger] kept[i]).is_active() by {
        ports.lemma_filter_pred(active(), i);
    }
    lemma_filter_all_active(kept);
}

/// Filtering keeps the order: of two ports that stay, the one that stands
/// first after filtering stood first before.
pub proof fn lemma_filter_keeps_order(ports: Seq<PortModel>, i: int, j: int)
    requires
        0 <= i < j < ports.filter(active()).len(),
    ensures
        exists|a: int, b: int|
            0 <= a < b < ports.len() && ports[a] == ports.filter(active())[i] && ports[b]
                == ports.filter(active())[j],
    decreases ports.len(),
{
    reveal(Seq::filter);
    let kept = ports.filter(active());
    let front = ports.drop_last();
    if j < front.filter(active()).len() {
        lemma_filter_keeps_order(front, i, j);
        let (a, b) = choose|a: int, b: int|
            0 <= a < b < front.len() && front[a] == front.filter(active())[i] && front[b]
                == front.filter(active())[j];
        assert(0 <= a < b < ports.len() && ports[a] == kept[i] && ports[b] == kept[j]);
    } else {
        let b = ports.len() - 1;
        assert(kept[j] == ports[b]);
        assert(front.filter(active()).contains(kept[i])) by {
            assert(front.filter(active())[i] == kept[i]);
        }
        front.lemma_filter_contains_rev(active(), kept[i]);
        let a = choose|a: int| 0 <= a < front.len() && front[a] == kept[i];
        assert(0 <= a < b < ports.len() && ports[a] == kept[i] && ports[b] == kept[j]);
    }
}

/// Gives each port of `data` the rank that `order` has for its device.
pub fn assign_ranks(data: &mut Vec<HardwarePort>, order: &ServiceOrder)
    ensures
        models(final(data)@) == with_ranks(models(old(data)@), order@),
{
    let n: usize = data.len();
    let mut i: usize = 0;
    while i < n
        invariant
            n == data.len(),
            n == old(data).len(),
            i <= n,
            forall|k: int|
                0 <= k < i ==> (#[trigger] data@[k])@ == old(data)@[k]@.ranked(
                    rank_of(order@, old(data)@[k]@.device),
                ),
            forall|k: int| i <= k < n ==> data@[k] == old(data)@[k],
        decreases n - i,
    {
        let rank = order.rank(data[i].device.as_str());
        data[i].service_order = rank;
        i += 1;
    }
    assert(models(data@) =~= with_ranks(models(old(data)@), order@));
}

/// Sorts `data` by ascending rank; ports of one rank keep their order.
pub fn stable_sort(data: &mut Vec<HardwarePort>)
    ensures
        is_stable_sort_of(models(final(data)@), models(old(data)@)),
{
    let n: usize = data.len();
    let ghost given = models(data@);
    let mut i: usize = 0;
    proof {
        reveal_with_fuel(Seq::filter, 1);
        assert(given.take(0) =~= Seq::<PortModel>::empty());
    }
    while i < n
        invariant
            n == data.len(),
            given.len() == n,
            i <= n,
            is_stable_sort_of(models(data@).take(i as int), given.take(i as int)),
            models(data@).skip(i as int) == given.skip(i as int),
        decreases n - i,
    {
        let rank = data[i].service_order;
        let mut j: usize = i;
        while j > 0 && data[j - 1].service_order > rank
            invariant
                n == data.len(),
                i < n,
                j <= i,
                rank == data@[i as int].service_order,
                forall|k: int| j <= k < i ==> (#[trigger] data@[k]).service_order > rank,
            decreases j,
        {
            j -= 1;
        }
        let ghost before = models(data@);
        let port = data.remove(i);
        data.insert(j, port);
        proof {
            let front = before.subrange(0, j as int);
            let back = before.subrange(j as int, i as int);
            assert(before.take(i as int) =~= front + back);
            assert(given.take(i + 1) =~= given.take(i as int).push(port@)) by {
                assert(given.skip(i as int)[0] == before.skip(i as int)[0]);
            }
            assert forall|k: int| 0 <= k < front.len() implies front[k].service_order
                <= port@.service_order by {
                if j > 0 {
                    assert(before.take(i as int)[k] == front[k]);
                    assert(before.take(i as int)[j - 1] == data@[j - 1]@);
                }
            }
            lemma_insert_keeps_stable_sort(front, back, port@, given.take(i as int));
            assert(models(data@).take(i + 1) =~= front + seq![port@] + back);
            assert(models(data@).skip(i + 1) =~= before.skip(i as int).skip(1));
            assert(given.skip(i + 1) =~= given.skip(i as int).skip(1));
        }
        i += 1;
    }
    assert(models(data@).take(n as int) =~= models(data@));
    assert(given.take(n as int) =~= given);
}

/// Orders `data` by the service order that `listing` gives: each port gets
/// the rank of its device, `MAX_RANK` where the listing does not name it,
/// and the ports are then sorted by ascending rank, those of one rank in the
/// order they had. A listing that cannot be read leaves `data` as it is.
pub fn sort_by_service_order(data: &mut Vec<HardwarePort>, listing: &str) -> (done: Result<
    (),
    PortError,
>)
    ensures
        match done {
            Ok(_) => {
                &&& listing_gives(listing@, Ok(listing_devices(listing@)))
                &&& is_stable_sort_of(
                    models(final(data)@),
                    with_ranks(models(old(data)@), listing_devices(listing@)),
                )
            },
            Err(e) => listing_gives(listing@, Err(e)) && *final(data) == *old(data),
        },
{
    match get_service_order(listing) {
        Ok(order) => {
            assign_ranks(data, &order);
            stable_sort(data);
            Ok(())
        },
        Err(e) => Err(e),
    }
}

/// The hardware ports of the host.
pub struct HardwarePortList {
    pub ports: Vec<HardwarePort>,
}

impl View for HardwarePortList {
    type V = Seq<PortModel>;

    open spec fn view(&self) -> Seq<PortModel> {
        models(self.ports@)
    }
}

impl HardwarePortList {
    /// The ports of the registry `listing`, in the order of the text: one
    /// port for each entry, with the address and the speed that follow from
    /// what the two queries gave for its device. `ip_outputs` and
    /// `link_statuses` hold one output for each entry, in the order of the
    /// entries.
    pub fn new(listing: &str, ip_outputs: &Vec<String>, link_statuses: &Vec<String>) -> (list:
        HardwarePortList)
        requires
            ip_outputs@.len() == registry_entries(listing@).len(),
            link_statuses@.len() == registry_entries(listing@).len(),
        ensures
            list@ == ports_of(
                registry_entries(listing@),
                texts(ip_outputs@),
                texts(link_statuses@),
            ),
    {
        HardwarePortList::from_entries(get_hw_ports(listing), ip_outputs, link_statuses)
    }

    /// One port for each of `entries`, in their order, with the address and
    /// the speed that follow from what the two queries gave for its device.
    /// `ip_outputs` and `link_statuses` hold one output for each entry, in
    /// the order of the entries.
    pub fn from_entries(
        entries: Vec<PortEntry>,
        ip_outputs: &Vec<String>,
        link_statuses: &Vec<String>,
    ) -> (list: HardwarePortList)
        requires
            ip_outputs@.len() == entries@.len(),
            link_statuses@.len() == entries@.len(),
        ensures
            list@ == ports_of(
                entry_models(entries@),
                texts(ip_outputs@),
                texts(link_statuses@),
            ),
    {
        let ghost wanted = ports_of(
            entry_models(entries@),
            texts(ip_outputs@),
            texts(link_statuses@),
        );
        let mut ports: Vec<HardwarePort> = Vec::new();
        let mut i: usize = 0;
        for entry in it: entries
            invariant
                it.seq() == entries@,
                i == it.index(),
                ip_outputs@.len() == entries@.len(),
                link_statuses@.len() == entries@.len(),
                wanted == ports_of(
                    entry_models(entries@),
                    texts(ip_outputs@),
                    texts(link_statuses@),
                ),
                models(ports@) == wanted.take(i as int),
        {
            let ghost before = models(ports@);
            let port = HardwarePort::new(
                entry.name,
                entry.device,
                entry.mac_address,
                ip_outputs[i].as_str(),
                link_statuses[i].as_str(),
            );
            assert(port@ == wanted[i as int]);
            ports.push(port);
            assert(models(ports@) =~= before.push(port@));
            assert(wanted.take(i + 1) =~= wanted.take(i as int).push(wanted[i as int]));
            assert(i < ip_outputs.len());
            i += 1;
        }
        assert(wanted.take(i as int) =~= wanted);
        HardwarePortList { ports }
    }

    /// The list in the service order that `listing` gives, see
    /// [`sort_by_service_order`].
    pub fn in_service_order(self, listing: &str) -> (ordered: Result<HardwarePortList, PortError>)
        ensures
            match ordered {
                Ok(list) => {
                    &&& listing_gives(listing@, Ok(listing_devices(listing@)))
                    &&& is_stable_sort_of(list@, with_ranks(self@, listing_devices(listing@)))
                },
                Err(e) => listing_gives(listing@, Err(e)),
            },
    {
        let mut ports = self.ports;
        match sort_by_service_order(&mut ports, listing) {
            Ok(_) => Ok(HardwarePortList { ports }),
            Err(e) => Err(e),
        }
    }

    /// The list without the ports that have no address, where `active_only`
    /// is set; the whole list where it is not. The ports that stay keep
    /// their order.
    pub fn filter_ports(self, active_only: bool) -> (kept: HardwarePortList)
        ensures
            kept@ == if active_only {
                self@.filter(active())
            } else {
                self@
            },
    {
        if active_only {
            let mut ports: Vec<HardwarePort> = Vec::new();
            proof {
                reveal_with_fuel(Seq::filter, 1);
            }
            for port in it: self.ports
                invariant
                    it.seq() == self.ports@,
                    models(ports@) == models(it.seq().take(it.index())).filter(active()),
            {
                proof {
                    reveal_with_fuel(Seq::filter, 1);
                    let seen = models(it.seq().take(it.index() + 1));
                    assert(seen.drop_last() =~= models(it.seq().take(it.index())));
                    assert(seen.last() == port@);
                }
                if port.is_active() {
                    ports.push(port);
                    assert(models(ports@) =~= models(it.seq().take(it.index())).filter(
                        active(),
                    ).push(port@));
                }
            }
            assert(self.ports@.take(self.ports@.len() as int) =~= self.ports@);
            HardwarePortList { ports }
        } else {
            self
        }
    }
}

} // verus!
