//! The port registry: the listing of all hardware ports of the host.
//!
//! An entry of the listing is three lines and an empty line:
//!
//! ```text
//! Hardware Port: <name>
//! Device: <device>
//! Ethernet Address: <address>
//!
//! ```
//!
//! Text that belongs to no entry is passed over.

use crate::text::{lemma_line_break, lemma_line_break_is, line_break, occurs_at};
use regex::Regex;
use vstd::prelude::*;

verus! {

/// The registry entry as a regular expression: `.` is any character but a
/// line feed, and `\n` is a line feed.
pub const REGISTRY_PATTERN: &'static str =
    r"Hardware Port: (.*)\nDevice: (.*)\nEthernet Address: (.*)\n\n";

/// An entry of the registry as contracts speak of it.
pub struct EntryModel {
    pub name: Seq<char>,
    pub device: Seq<char>,
    pub mac_address: Seq<char>,
}

/// An entry of the registry: the name of a port, its device and the
/// hardware address of the device.
#[derive(Debug, Clone, Default, PartialEq, Eq)]
pub struct PortEntry {
    pub name: String,
    pub device: String,
    pub mac_address: String,
}

impl View for PortEntry {
    type V = EntryModel;

    open spec fn view(&self) -> EntryModel {
        EntryModel { name: self.name@, device: self.device@, mac_address: self.mac_address@ }
    }
}

/// The models of a sequence of entries.
pub open spec fn entry_models(entries: Seq<PortEntry>) -> Seq<EntryModel> {
    entries.map_values(|e: PortEntry| e@)
}

/// What stands before the name of a port.
pub open spec fn name_label() -> Seq<char> {
    "Hardware Port: "@
}

/// What stands between the name and the device.
pub open spec fn device_label() -> Seq<char> {
    "\nDevice: "@
}

/// What stands between the device and the address.
pub open spec fn address_label() -> Seq<char> {
    "\nEthernet Address: "@
}

/// What ends an entry: the end of the address line and an empty line.
pub open spec fn entry_end() -> Seq<char> {
    "\n\n"@
}

/// The entry of `text` that begins at index `at`, and the index behind it.
///
/// There is one where the name label stands at `at`, the device label stands
/// at the first line feed behind it, the address label at the first line
/// feed behind that, and the end of an entry at the first line feed behind
/// that. Each field is what stands between its label and the next line
/// feed.
pub open spec fn entry_at(text: Seq<char>, at: int) -> Option<(EntryModel, int)> {
    let name_from = at + name_label().len();
    let name_to = line_break(text, name_from);
    let device_from = name_to + device_label().len();
    let device_to = line_break(text, device_from);
    let mac_from = device_to + address_label().len();
    let mac_to = line_break(text, mac_from);
    if occurs_at(text, name_label(), at) && occurs_at(text, device_label(), name_to) && occurs_at(
        text,
        address_label(),
        device_to,
    ) && occurs_at(text, entry_end(), mac_to) {
        Some(
            (
                EntryModel {
                    name: text.subrange(name_from, name_to),
                    device: text.subrange(device_from, device_to),
                    mac_address: text.subrange(mac_from, mac_to),
                },
                mac_to + entry_end().len(),
            ),
        )
    } else {
        None
    }
}

/// An entry ends behind its beginning, and within the text.
pub proof fn lemma_entry_at_advances(text: Seq<char>, at: int)
    ensures
        entry_at(text, at) matches Some((_, next)) ==> at < next <= text.len(),
{
    reveal_strlit("\n\n");
    let name_from = at + name_label().len();
    let name_to = line_break(text, name_from);
    let device_from = name_to + device_label().len();
    let device_to = line_break(text, device_from);
    let mac_from = device_to + address_label().len();
    if entry_at(text, at) is Some {
        lemma_line_break(text, name_from);
        lemma_line_break(text, device_from);
        lemma_line_break(text, mac_from);
    }
}

/// The entries of `text` that begin at index `from` or behind it, in the
/// order of the text. The search goes from left to right: the first index
/// at which an entry begins gives the first entry, and the search goes on
/// behind that entry.
pub open spec fn entries_from(text: Seq<char>, from: int) -> Seq<EntryModel>
    decreases text.len() - from,
{
    if from < 0 || from >= text.len() {
        Seq::empty()
    } else {
        match entry_at(text, from) {
            Some((entry, next)) => {
                proof {
                    lemma_entry_at_advances(text, from);
                }
                seq![entry] + entries_from(text, next)
            },
            None => entries_from(text, from + 1),
        }
    }
}

/// The entries of a registry text, in the order of the text.
pub open spec fn registry_entries(text: Seq<char>) -> Seq<EntryModel> {
    entries_from(text, 0)
}

/// `s` holds no line feed.
pub open spec fn single_line(s: Seq<char>) -> bool {
    forall|i: int| 0 <= i < s.len() ==> s[i] != '\n'
}

/// Each field of `entry` is a single line.
pub open spec fn single_line_fields(entry: EntryModel) -> bool {
    &&& single_line(entry.name)
    &&& single_line(entry.device)
    &&& single_line(entry.mac_address)
}

/// `entry` as the registry writes it.
pub open spec fn entry_text(entry: EntryModel) -> Seq<char> {
    name_label() + entry.name + device_label() + entry.device + address_label()
        + entry.mac_address + entry_end()
}

/// `entries` as the registry writes them, one behind the other.
pub open spec fn registry_text(entries: Seq<EntryModel>) -> Seq<char>
    decreases entries.len(),
{
    if entries.len() == 0 {
        Seq::empty()
    } else {
        entry_text(entries.first()) + registry_text(entries.drop_first())
    }
}

/// An entry written out, with anything behind it, is read back at index 0.
proof fn lemma_entry_at_start(entry: EntryModel, rest: Seq<char>)
    requires
        single_line_fields(entry),
    ensures
        entry_at(entry_text(entry) + rest, 0) == Some((entry, entry_text(entry).len() as int)),
{
    reveal_strlit("Hardware Port: ");
    reveal_strlit("\nDevice: ");
    reveal_strlit("\nEthernet Address: ");
    reveal_strlit("\n\n");
    let text = entry_text(entry) + rest;
    let name_from = name_label().len() as int;
    let name_to = name_from + entry.name.len();
    let device_from = name_to + device_label().len();
    let device_to = device_from + entry.device.len();
    let mac_from = device_to + address_label().len();
    let mac_to = mac_from + entry.mac_address.len();
    assert forall|k: int| name_from <= k < name_to implies text[k] != '\n' by {
        assert(text[k] == entry.name[k - name_from]);
    }
    assert(text[name_to] == device_label()[0]);
    lemma_line_break_is(text, name_from, name_to);
    assert forall|k: int| device_from <= k < device_to implies text[k] != '\n' by {
        assert(text[k] == entry.device[k - device_from]);
    }
    assert(text[device_to] == address_label()[0]);
    lemma_line_break_is(text, device_from, device_to);
    assert forall|k: int| mac_from <= k < mac_to implies text[k] != '\n' by {
        assert(text[k] == entry.mac_address[k - mac_from]);
    }
    assert(text[mac_to] == entry_end()[0]);
    lemma_line_break_is(text, mac_from, mac_to);
    assert(text.subrange(0, name_from) =~= name_label());
    assert(text.subrange(name_to, device_from) =~= device_label());
    assert(text.subrange(device_to, mac_from) =~= address_label());
    assert(text.subrange(mac_to, mac_to + entry_end().len()) =~= entry_end());
    assert(text.subrange(name_from, name_to) =~= entry.name);
    assert(text.subrange(device_from, device_to) =~= entry.device);
    assert(text.subrange(mac_from, mac_to) =~= entry.mac_address);
}

/// The first line feed behind an index does not depend on what stands
/// before the index.
proof fn lemma_line_break_shift(before: Seq<char>, text: Seq<char>, from: int)
    requires
        0 <= from,
    ensures
        line_break(before + text, before.len() + from) == before.len() + line_break(text, from),
    decreases text.len() - from,
{
    if from < text.len() {
        assert((before + text)[before.len() + from] == text[from]);
        if text[from] != '\n' {
            lemma_line_break_shift(before, text, from + 1);
        }
    }
}

/// Whether a text stands at an index does not depend on what stands before
/// the index.
proof fn lemma_occurs_at_shift(before: Seq<char>, text: Seq<char>, needle: Seq<char>, at: int)
    requires
        0 <= at,
    ensures
        occurs_at(before + text, needle, before.len() + at) == occurs_at(text, needle, at),
{
    if at + needle.len() <= text.len() {
        assert((before + text).subrange(before.len() + at, before.len() + at + needle.len())
            =~= text.subrange(at, at + needle.len()));
    }
}

/// The entry that begins at an index does not depend on what stands before
/// the index.
proof fn lemma_entry_at_shift(before: Seq<char>, text: Seq<char>, at: int)
    requires
        0 <= at,
    ensures
        entry_at(before + text, before.len() + at) == match entry_at(text, at) {
            Some((entry, next)) => Some((entry, before.len() + next)),
            None => None,
        },
{
    let whole = before + text;
    let shift = before.len() as int;
    let name_from = at + name_label().len();
    let name_to = line_break(text, name_from);
    let device_from = name_to + device_label().len();
    let device_to = line_break(text, device_from);
    let mac_from = device_to + address_label().len();
    let mac_to = line_break(text, mac_from);
    lemma_line_break_shift(before, text, name_from);
    lemma_occurs_at_shift(before, text, name_label(), at);
    if occurs_at(text, name_label(), at) {
        lemma_line_break(text, name_from);
        lemma_line_break_shift(before, text, device_from);
        lemma_occurs_at_shift(before, text, device_label(), name_to);
        if occurs_at(text, device_label(), name_to) {
            lemma_line_break(text, device_from);
            lemma_line_break_shift(before, text, mac_from);
            lemma_occurs_at_shift(before, text, address_label(), device_to);
            if occurs_at(text, address_label(), device_to) {
                lemma_line_break(text, mac_from);
                lemma_occurs_at_shift(before, text, entry_end(), mac_to);
                if occurs_at(text, entry_end(), mac_to) {
                    assert(whole.subrange(shift + name_from, shift + name_to) =~= text.subrange(
                        name_from,
                        name_to,
                    ));
                    assert(whole.subrange(shift + device_from, shift + device_to)
                        =~= text.subrange(device_from, device_to));
                    assert(whole.subrange(shift + mac_from, shift + mac_to) =~= text.subrange(
                        mac_from,
                        mac_to,
                    ));
                }
            }
        }
    }
}

/// The entries behind an index do not depend on what stands before the
/// index.
proof fn lemma_entries_from_shift(before: Seq<char>, text: Seq<char>, from: int)
    requires
        0 <= from,
    ensures
        entries_from(before + text, before.len() + from) == entries_from(text, from),
    decreases text.len() - from,
{
    if from < text.len() {
        lemma_entry_at_shift(before, text, from);
        lemma_entry_at_advances(text, from);
        match entry_at(text, from) {
            Some((_, next)) => {
                lemma_entries_from_shift(before, text, next);
            },
            None => {
                lemma_entries_from_shift(before, text, from + 1);
            },
        }
    }
}

/// An entry begins at `at` and ends before `end` exactly where the text
/// from `at` to `end` is an entry written out whose fields are single lines.
pub proof fn lemma_entry_at_is_written_entry(
    text: Seq<char>,
    at: int,
    entry: EntryModel,
    end: int,
)
    ensures
        entry_at(text, at) == Some((entry, end)) <==> {
            &&& 0 <= at <= end <= text.len()
            &&& single_line_fields(entry)
            &&& text.subrange(at, end) == entry_text(entry)
        },
{
    if entry_at(text, at) == Some((entry, end)) {
        let name_from = at + name_label().len();
        let name_to = line_break(text, name_from);
        let device_from = name_to + device_label().len();
        let device_to = line_break(text, device_from);
        let mac_from = device_to + address_label().len();
        let mac_to = line_break(text, mac_from);
        lemma_line_break(text, name_from);
        lemma_line_break(text, device_from);
        lemma_line_break(text, mac_from);
        assert(text.subrange(at, name_from) == name_label());
        assert(text.subrange(name_to, device_from) == device_label());
        assert(text.subrange(device_to, mac_from) == address_label());
        assert(text.subrange(mac_to, end) == entry_end());
        assert(text.subrange(at, end) =~= text.subrange(at, name_from) + entry.name
            + text.subrange(name_to, device_from) + entry.device + text.subrange(
            device_to,
            mac_from,
        ) + entry.mac_address + text.subrange(mac_to, end));
    }
    if 0 <= at <= end <= text.len() && single_line_fields(entry) && text.subrange(at, end)
        == entry_text(entry) {
        let before = text.subrange(0, at);
        let rest = text.subrange(end, text.len() as int);
        lemma_entry_at_start(entry, rest);
        lemma_entry_at_shift(before, entry_text(entry) + rest, 0);
        assert(text =~= before + (text.subrange(at, end) + rest));
    }
}

/// A text that begins with an entry written out gives that entry, and then
/// the entries of what stands behind it.
pub proof fn lemma_entry_then_rest(entry: EntryModel, rest: Seq<char>)
    requires
        single_line_fields(entry),
    ensures
        registry_entries(entry_text(entry) + rest) == seq![entry] + registry_entries(rest),
{
    reveal_strlit("\n\n");
    lemma_entry_at_start(entry, rest);
    lemma_entries_from_shift(entry_text(entry), rest, 0);
}

/// A registry of `entries`, written one behind the other, each field a
/// single line, with any text behind it, gives `entries` and then the
/// entries of that text.
pub proof fn lemma_entries_then_rest(entries: Seq<EntryModel>, rest: Seq<char>)
    requires
        forall|i: int| 0 <= i < entries.len() ==> single_line_fields(#[trigger] entries[i]),
    ensures
        registry_entries(registry_text(entries) + rest) == entries + registry_entries(rest),
    decreases entries.len(),
{
    if entries.len() == 0 {
        assert(registry_text(entries) + rest =~= rest);
        assert(entries + registry_entries(rest) =~= registry_entries(rest));
    } else {
        let first = entries.first();
        let others = entries.drop_first();
        assert forall|i: int| 0 <= i < others.len() implies single_line_fields(
            #[trigger] others[i],
        ) by {
            assert(others[i] == entries[i + 1]);
        }
        lemma_entries_then_rest(others, rest);
        lemma_entry_then_rest(first, registry_text(others) + rest);
        assert(registry_text(entries) + rest =~= entry_text(first) + (registry_text(others)
            + rest));
        assert(entries + registry_entries(rest) =~= seq![first] + (others + registry_entries(
            rest,
        )));
    }
}

/// Reading keeps the entries and their order: a registry of `entries`,
/// written one behind the other, each field a single line, is read back as
/// `entries`, as many as were written and in the order of the text.
pub proof fn lemma_entries_read_back(entries: Seq<EntryModel>)
    requires
        forall|i: int| 0 <= i < entries.len() ==> single_line_fields(#[trigger] entries[i]),
    ensures
        registry_entries(registry_text(entries)) == entries,
{
    lemma_entries_then_rest(entries, Seq::empty());
    assert(registry_text(entries) + Seq::<char>::empty() =~= registry_text(entries));
    assert(entries + registry_entries(Seq::<char>::empty()) =~= entries);
}

/// Text without entries behind a registry does not change what is read:
/// neither the number of entries nor the entries.
pub proof fn lemma_trailing_text_ignored(entries: Seq<EntryModel>, trailing: Seq<char>)
    requires
        forall|i: int| 0 <= i < entries.len() ==> single_line_fields(#[trigger] entries[i]),
        registry_entries(trailing).len() == 0,
    ensures
        registry_entries(registry_text(entries) + trailing) == entries,
        registry_entries(registry_text(entries) + trailing).len() == entries.len(),
{
    lemma_entries_then_rest(entries, trailing);
    assert(entries + registry_entries(trailing) =~= entries);
}

/// Compiles `pattern` with `Regex::new`, walks the matches that
/// `Regex::captures_iter` finds in `text`, and copies groups 1 to 3 of each
/// match into an entry.
///
/// The contract is for the registry pattern alone, and nothing of it is
/// proved. In that pattern everything but the three groups is literal, and
/// a group, `(.*)`, takes any characters but line feeds and is followed by a
/// line feed. So the text that a match covers is an entry written out with
/// single-line fields, which is what [`entry_at`] describes (see
/// [`lemma_entry_at_is_written_entry`]), and a match that begins at a given
/// index can end in one place only. The iterator gives the matches from left
/// to right, none overlapping another, each search beginning where the last
/// match ended: that is how [`entries_from`] goes through the text. The
/// pattern compiles, and all three groups take part in every match.
#[verifier::external_body]
fn capture_entries(pattern: &str, text: &str) -> (found: Vec<PortEntry>)
    requires
        pattern@ == REGISTRY_PATTERN@,
    ensures
        entry_models(found@) == registry_entries(text@),
{
    let re = Regex::new(pattern).unwrap();
    let mut found = Vec::new();
    for caps in re.captures_iter(text) {
        found.push(
            PortEntry {
                name: caps[1].to_string(),
                device: caps[2].to_string(),
                mac_address: caps[3].to_string(),
            },
        );
    }
    found
}

/// Reads the registry: the entries of `listing`, in the order of the text.
/// A text without entries gives none.
pub fn get_hw_ports(listing: &str) -> (found: Vec<PortEntry>)
    ensures
        entry_models(found@) == registry_entries(listing@),
{
    capture_entries(REGISTRY_PATTERN, listing)
}

} // verus!
