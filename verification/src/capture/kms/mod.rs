//! Direct scan-out capture through the KMS helper: which card and which render node are used.

use vstd::prelude::*;
use vstd::string::*;

use crate::text;
use crate::text::trim;

pub mod capture;
pub mod client;
pub mod egl;
pub mod laws;
pub mod protocol;

verus! {

/// Whether a text starts with another.
pub open spec fn starts_with(t: Seq<char>, prefix: Seq<char>) -> bool {
    t.len() >= prefix.len() && t.take(prefix.len() as int) == prefix
}

/// Whether the first dash of a text is at `i`.
pub open spec fn first_dash(t: Seq<char>, i: int) -> bool {
    &&& 0 <= i < t.len()
    &&& t[i] == '-'
    &&& forall|j: int| 0 <= j < i ==> #[trigger] t[j] != '-'
}

/// The card in a connector's name: what is before the first dash, if that starts with `card` and
/// something follows the dash.
pub open spec fn card_of(entry: Seq<char>) -> Option<Seq<char>> {
    if exists|i: int| first_dash(entry, i) {
        let i = choose|i: int| first_dash(entry, i);
        let card = entry.take(i);
        if starts_with(card, "card"@) && i + 1 < entry.len() {
            Some(card)
        } else {
            None
        }
    } else {
        None
    }
}

fn has_prefix(t: &str, prefix: &str) -> (r: bool)
    ensures
        r == starts_with(t@, prefix@),
{
    let n: usize = prefix.unicode_len();
    if t.unicode_len() < n {
        return false;
    }
    let mut i: usize = 0;
    while i < n
        invariant
            i <= n,
            n == prefix@.len(),
            n <= t@.len(),
            forall|j: int| 0 <= j < i ==> #[trigger] t@[j] == prefix@[j],
        decreases n - i,
    {
        if t.get_char(i) != prefix.get_char(i) {
            assert(t@.take(n as int)[i as int] != prefix@[i as int]);
            return false;
        }
        i += 1;
    }
    assert(t@.take(n as int) =~= prefix@);
    true
}

/// The card that a connector's entry belongs to, such as `card1` for `card1-DP-1`; nothing for
/// other entries.
pub fn card_name_from_connector(entry: &str) -> (card: Option<String>)
    ensures
        match card {
            Some(c) => card_of(entry@) == Some(c@),
            None => card_of(entry@) is None,
        },
{
    let n: usize = entry.unicode_len();
    let mut i: usize = 0;
    while i < n
        invariant
            i <= n,
            n == entry@.len(),
            forall|j: int| 0 <= j < i ==> #[trigger] entry@[j] != '-',
        decreases n - i,
    {
        if entry.get_char(i) == '-' {
            proof {
                assert(first_dash(entry@, i as int));
                let c = choose|k: int| first_dash(entry@, k);
                if c < i {
                    assert(entry@[c] != '-');
                } else if c > i {
                    assert(entry@[i as int] != '-');
                }
            }
            let card: &str = entry.substring_char(0, i);
            assert(card@ =~= entry@.take(i as int));
            if has_prefix(card, "card") && i + 1 < n {
                return Some(card.to_owned());
            }
            return None;
        }
        i += 1;
    }
    None
}

/// An entry of the system's display list: a name and the text of its status.
#[derive(Clone, Debug)]
pub struct ConnectorEntry {
    pub name: String,
    pub status: String,
}

/// The card of a connector, if a display is connected to it.
pub open spec fn connected_card(e: ConnectorEntry) -> Option<Seq<char>> {
    if text::is_trimmed(e.status@, "connected"@) {
        card_of(e.name@)
    } else {
        None
    }
}

/// Whether a card is the lowest-numbered of those with a connected display.
pub open spec fn is_lowest(entries: Seq<ConnectorEntry>, n: int, card: Seq<char>) -> bool {
    &&& exists|i: int| 0 <= i < n && #[trigger] connected_card(entries[i]) == Some(card)
    &&& forall|j: int|
        0 <= j < n ==> {
            match #[trigger] connected_card(entries[j]) {
                Some(other) => !text::comes_before(other, card),
                None => true,
            }
        }
}

/// The card to capture, as a device path: the lowest-numbered one with a connected display.
pub fn choose_capture_card(entries: &Vec<ConnectorEntry>) -> (path: Option<String>)
    ensures
        match path {
            Some(p) => exists|card: Seq<char>|
                #[trigger] is_lowest(entries@, entries@.len() as int, card) && p@ == "/dev/dri/"@
                    + card,
            None => forall|j: int|
                0 <= j < entries@.len() ==> (#[trigger] connected_card(entries@[j])) is None,
        },
{
    let wanted: String = "connected".to_owned();
    let mut best: Option<String> = None;
    let mut i: usize = 0;
    while i < entries.len()
        invariant
            i <= entries@.len(),
            wanted@ == "connected"@,
            match best {
                Some(b) => is_lowest(entries@, i as int, b@),
                None => forall|j: int|
                    0 <= j < i ==> (#[trigger] connected_card(entries@[j])) is None,
            },
        decreases entries@.len() - i,
    {
        let e: &ConnectorEntry = &entries[i];
        let status: String = trim(e.status.as_str()).to_owned();
        let connected: bool = status == wanted;
        proof {
            if text::is_trimmed(e.status@, "connected"@) {
                text::trim_is_unique(e.status@, status@, "connected"@);
            }
        }
        if connected {
            if let Some(card) = card_name_from_connector(e.name.as_str()) {
                assert(connected_card(entries@[i as int]) == Some(card@));
                let ghost before = best;
                let replace: bool = match &best {
                    Some(b) => text::is_before(card.as_str(), b.as_str()),
                    None => true,
                };
                if replace {
                    proof {
                        assert forall|j: int| 0 <= j < i + 1 implies {
                            match #[trigger] connected_card(entries@[j]) {
                                Some(other) => !text::comes_before(other, card@),
                                None => true,
                            }
                        } by {
                            match connected_card(entries@[j]) {
                                Some(other) => {
                                    text::order_is_irreflexive(card@);
                                    if j < i && text::comes_before(other, card@) {
                                        match before {
                                            Some(b) => {
                                                text::order_is_transitive(other, card@, b@);
                                            },
                                            None => {},
                                        }
                                    }
                                },
                                None => {},
                            }
                        }
                    }
                    best = Some(card);
                    assert(is_lowest(entries@, i + 1, card@));
                }
            }
        }
        i += 1;
    }
    match best {
        Some(card) => {
            let mut path: String = "/dev/dri/".to_owned();
            path.append(card.as_str());
            assert(is_lowest(entries@, entries@.len() as int, card@));
            Some(path)
        },
        None => None,
    }
}

/// Of two cards that differ in their number, the lower-numbered comes first.
pub proof fn lower_number_comes_first(m: int, n: int)
    requires
        0 <= m < n,
    ensures
        text::comes_before("card"@ + text::decimal(m), "card"@ + text::decimal(n)),
{
    text::decimal_order(m, n);
    text::order_is_kept_behind_a_prefix("card"@, text::decimal(m), text::decimal(n));
}

/// A node of the system's device list: its name, and the device behind it where that is known.
#[derive(Clone, Debug)]
pub struct RenderEntry {
    pub name: String,
    pub device: Option<Vec<u8>>,
}

/// Whether a node renders on a device.
pub open spec fn renders_on(e: RenderEntry, device: Seq<u8>) -> bool {
    starts_with(e.name@, "renderD"@) && (e.device matches Some(d) && d@ == device)
}

/// The render node of a card, as a device path: the first whose device is the card's.
pub fn choose_render_node(entries: &Vec<RenderEntry>, card_device: &Vec<u8>) -> (path: Option<
    String,
>)
    ensures
        match path {
            Some(p) => exists|i: int|
                {
                    &&& 0 <= i < entries@.len()
                    &&& #[trigger] renders_on(entries@[i], card_device@)
                    &&& forall|j: int|
                        0 <= j < i ==> !#[trigger] renders_on(entries@[j], card_device@)
                    &&& p@ == "/dev/dri/"@ + entries@[i].name@
                },
            None => forall|j: int|
                0 <= j < entries@.len() ==> !#[trigger] renders_on(entries@[j], card_device@),
        },
{
    let mut i: usize = 0;
    while i < entries.len()
        invariant
            i <= entries@.len(),
            forall|j: int| 0 <= j < i ==> !#[trigger] renders_on(entries@[j], card_device@),
        decreases entries@.len() - i,
    {
        let e: &RenderEntry = &entries[i];
        if has_prefix(e.name.as_str(), "renderD") {
            if let Some(device) = &e.device {
                if same_bytes(device, card_device) {
                    assert(renders_on(entries@[i as int], card_device@));
                    let mut path: String = "/dev/dri/".to_owned();
                    path.append(e.name.as_str());
                    return Some(path);
                }
            }
        }
        i += 1;
    }
    None
}

fn same_bytes(a: &Vec<u8>, b: &Vec<u8>) -> (r: bool)
    ensures
        r == (a@ == b@),
{
    if a.len() != b.len() {
        return false;
    }
    let mut i: usize = 0;
    while i < a.len()
        invariant
            i <= a@.len(),
            a@.len() == b@.len(),
            forall|j: int| 0 <= j < i ==> #[trigger] a@[j] == b@[j],
        decreases a@.len() - i,
    {
        if a[i] != b[i] {
            return false;
        }
        i += 1;
    }
    assert(a@ =~= b@);
    true
}

} // verus!
