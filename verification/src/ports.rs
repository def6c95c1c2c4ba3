//! Serial ports the OS lists: their labels, their order, which of them are
//! worth probing for boards, and the name a flasher must be given.

use vstd::prelude::*;
use crate::codec::nibble_upper;
use crate::text::{
    chars_of, extend_chars, extend_str, starts_with, string_of, sub_chars, trim, trim_chars,
};
use crate::workers::{
    is_com_name, normalize_port_name, port_names_match, spec_normalize_port_name, PortChoice,
    WorkerKind,
};

verus! {

// ----- text order -----

/// `a` sorts before `b`: the order of Rust's `str` (its UTF-8 bytes, which
/// is the order of the chars' code points).
pub open spec fn text_lt(a: Seq<char>, b: Seq<char>) -> bool
    decreases a.len(),
{
    if b.len() == 0 {
        false
    } else if a.len() == 0 {
        true
    } else if a[0] != b[0] {
        (a[0] as u32) < (b[0] as u32)
    } else {
        text_lt(a.drop_first(), b.drop_first())
    }
}

pub proof fn lemma_text_lt_asym(a: Seq<char>, b: Seq<char>)
    ensures
        text_lt(a, b) ==> !text_lt(b, a),
    decreases a.len(),
{
    if a.len() > 0 && b.len() > 0 && a[0] == b[0] {
        lemma_text_lt_asym(a.drop_first(), b.drop_first());
    }
}

pub proof fn lemma_text_lt_trans(a: Seq<char>, b: Seq<char>, c: Seq<char>)
    requires
        text_lt(a, b),
        text_lt(b, c),
    ensures
        text_lt(a, c),
    decreases a.len(),
{
    if a.len() > 0 && b.len() > 0 && c.len() > 0 && a[0] == b[0] && b[0] == c[0] {
        lemma_text_lt_trans(a.drop_first(), b.drop_first(), c.drop_first());
    }
}

pub proof fn lemma_text_lt_total(a: Seq<char>, b: Seq<char>)
    ensures
        text_lt(a, b) || text_lt(b, a) || a == b,
    decreases a.len(),
{
    if a.len() == 0 || b.len() == 0 {
        if a.len() == 0 && b.len() == 0 {
            assert(a =~= b);
        }
    } else if a[0] == b[0] {
        lemma_text_lt_total(a.drop_first(), b.drop_first());
        if a.drop_first() == b.drop_first() {
            assert(a =~= seq![a[0]] + a.drop_first());
            assert(b =~= seq![b[0]] + b.drop_first());
        }
    } else {
        vstd::utf8::char_u32_cast(a[0], a[0] as u32);
        vstd::utf8::char_u32_cast(b[0], b[0] as u32);
    }
}

fn text_less(a: &[char], b: &[char]) -> (r: bool)
    ensures
        r == text_lt(a@, b@),
{
    let mut i: usize = 0;
    assert(a@.skip(0) =~= a@);
    assert(b@.skip(0) =~= b@);
    while i < a.len() && i < b.len()
        invariant
            i <= a@.len(),
            i <= b@.len(),
            a@.take(i as int) == b@.take(i as int),
            text_lt(a@, b@) == text_lt(a@.skip(i as int), b@.skip(i as int)),
        decreases a@.len() - i,
    {
        if a[i] != b[i] {
            return (a[i] as u32) < (b[i] as u32);
        }
        assert(a@.skip(i as int).drop_first() =~= a@.skip(i + 1));
        assert(b@.skip(i as int).drop_first() =~= b@.skip(i + 1));
        assert(a@.take(i + 1) =~= a@.take(i as int).push(a@[i as int]));
        assert(b@.take(i + 1) =~= b@.take(i as int).push(b@[i as int]));
        i = i + 1;
    }
    i < b.len()
}

/// A sort key: a rank first, then a name, then a second name.
pub open spec fn key_lt(a: (u8, Seq<char>, Seq<char>), b: (u8, Seq<char>, Seq<char>)) -> bool {
    a.0 < b.0 || (a.0 == b.0 && (text_lt(a.1, b.1) || (a.1 == b.1 && text_lt(a.2, b.2))))
}

proof fn lemma_key_order(
    a: (u8, Seq<char>, Seq<char>),
    b: (u8, Seq<char>, Seq<char>),
    c: (u8, Seq<char>, Seq<char>),
)
    ensures
        key_lt(a, b) ==> !key_lt(b, a),
        key_lt(a, b) && key_lt(b, c) ==> key_lt(a, c),
        key_lt(a, b) || key_lt(b, a) || (a.0 == b.0 && a.1 == b.1 && a.2 == b.2),
{
    lemma_text_lt_asym(a.1, b.1);
    lemma_text_lt_total(a.1, b.1);
    lemma_text_lt_asym(a.2, b.2);
    lemma_text_lt_total(a.2, b.2);
    lemma_text_lt_asym(b.1, a.1);
    if a.1 == b.1 {
        lemma_text_lt_asym(a.1, a.1);
    }
    if key_lt(a, b) && key_lt(b, c) && a.0 == b.0 && b.0 == c.0 {
        if text_lt(a.1, b.1) && text_lt(b.1, c.1) {
            lemma_text_lt_trans(a.1, b.1, c.1);
        } else if a.1 == b.1 && b.1 == c.1 {
            lemma_text_lt_trans(a.2, b.2, c.2);
        }
    }
}

pub open spec fn item_key<T>(x: (u8, String, String, T)) -> (u8, Seq<char>, Seq<char>) {
    (x.0, x.1@, x.2@)
}

/// Items in order of their keys (ties in any order).
pub open spec fn keys_sorted<T>(s: Seq<(u8, String, String, T)>) -> bool {
    forall|i: int, j: int| 0 <= i < j < s.len() ==> !key_lt(item_key(s[j]), item_key(s[i]))
}

fn text_eq(a: &[char], b: &[char]) -> (r: bool)
    ensures
        r == (a@ == b@),
{
    if a.len() != b.len() {
        return false;
    }
    let r = crate::text::has_prefix(a, b);
    assert(a@ =~= a@.take(b@.len() as int));
    r
}

/// Whether item key `(r, n, m)` sorts before `o`'s key.
fn key_less<T>(r: u8, n: &[char], m: &[char], o: &(u8, String, String, T)) -> (b: bool)
    ensures
        b == key_lt((r, n@, m@), item_key(*o)),
{
    let on = chars_of(o.1.as_str());
    let om = chars_of(o.2.as_str());
    r < o.0 || (r == o.0 && (text_less(n, on.as_slice()) || (text_eq(n, on.as_slice()) && text_less(
        m,
        om.as_slice(),
    ))))
}

/// Sorts items by rank, then name, then second name (insertion sort).
pub fn sort_by_key<T>(items: Vec<(u8, String, String, T)>) -> (r: Vec<(u8, String, String, T)>)
    ensures
        keys_sorted(r@),
        r@.to_multiset() == items@.to_multiset(),
{
    let mut rest = items;
    let mut out: Vec<(u8, String, String, T)> = Vec::new();
    let ghost all = rest@;
    assert(rest@.skip(0) =~= all);
    let ghost mut taken: int = 0;
    proof {
        broadcast use vstd::seq_lib::group_to_multiset_ensures;
    }
    assert(all =~= all.take(0) + all.skip(0));
    while rest.len() > 0
        invariant
            0 <= taken <= all.len(),
            rest@ == all.skip(taken),
            keys_sorted(out@),
            out@.to_multiset() == all.take(taken).to_multiset(),
        decreases rest@.len(),
    {
        let x = rest.remove(0);
        assert(rest@ =~= all.skip(taken + 1));
        let xr = x.0;
        let xn = chars_of(x.1.as_str());
        let xm = chars_of(x.2.as_str());
        let ghost xk = item_key(x);
        let mut pos: usize = 0;
        loop
            invariant
                pos <= out@.len(),
                xk == (xr, xn@, xm@),
                forall|k: int| 0 <= k < pos ==> !key_lt(xk, item_key(#[trigger] out@[k])),
            ensures
                pos <= out@.len(),
                forall|k: int| 0 <= k < pos ==> !key_lt(xk, item_key(#[trigger] out@[k])),
                pos < out@.len() ==> key_lt(xk, item_key(out@[pos as int])),
            decreases out@.len() - pos,
        {
            if pos >= out.len() {
                break;
            }
            if key_less(xr, xn.as_slice(), xm.as_slice(), &out[pos]) {
                break;
            }
            pos = pos + 1;
        }
        let ghost before = out@;
        out.insert(pos, x);
        assert(out@ == before.insert(pos as int, x));
        proof {
            assert forall|i: int, j: int| 0 <= i < j < out@.len() implies !key_lt(
                item_key(out@[j]),
                item_key(out@[i]),
            ) by {
                let ki = item_key(out@[i]);
                let kj = item_key(out@[j]);
                if i == pos {
                    let kp = item_key(before[pos as int]);
                    assert(kj == item_key(before[j - 1]));
                    lemma_key_order(kj, xk, kp);
                    lemma_key_order(kp, kp, kp);
                } else if j == pos {
                    assert(ki == item_key(before[i]));
                } else {
                    let bi = if i < pos {
                        i
                    } else {
                        i - 1
                    };
                    let bj = if j < pos {
                        j
                    } else {
                        j - 1
                    };
                    assert(ki == item_key(before[bi]));
                    assert(kj == item_key(before[bj]));
                }
            }
            assert(all.take(taken + 1) =~= all.take(taken).push(x));
            vstd::seq_lib::to_multiset_build(all.take(taken), x);
            vstd::seq_lib::to_multiset_insert(before, pos as int, x);
            taken = taken + 1;
        }
    }
    assert(all.take(taken) =~= all);
    out
}

/// Sequences with the same items still have the same items after mapping.
pub proof fn lemma_map_multiset<A, B>(a: Seq<A>, b: Seq<A>, f: spec_fn(A) -> B)
    requires
        a.to_multiset() == b.to_multiset(),
    ensures
        a.map_values(f).to_multiset() == b.map_values(f).to_multiset(),
    decreases a.len(),
{
    broadcast use vstd::seq_lib::group_to_multiset_ensures;
    broadcast use vstd::multiset::group_multiset_axioms;

    if a.len() == 0 {
        assert(a.to_multiset().len() == 0);
        assert(b.to_multiset().len() == b.len());
        assert(b.len() == 0);
        assert(a.map_values(f) =~= Seq::<B>::empty());
        assert(b.map_values(f) =~= Seq::<B>::empty());
    } else {
        let x = a.last();
        let a1 = a.drop_last();
        assert(a =~= a1.push(x));
        assert(b.to_multiset().count(x) > 0);
        assert(b.contains(x));
        let k = choose|k: int| 0 <= k < b.len() && b[k] == x;
        let b1 = b.remove(k);
        assert(b1.to_multiset() =~= a1.to_multiset());
        lemma_map_multiset(a1, b1, f);
        assert(a.map_values(f) =~= a1.map_values(f).push(f(x)));
        assert(b.map_values(f).remove(k) =~= b1.map_values(f));
        assert(b.map_values(f)[k] == f(x));
        assert(b.map_values(f).to_multiset() =~= b1.map_values(f).to_multiset().insert(f(x)));
    }
}

// ----- the OS port list -----

/// How the OS says a serial port is attached.
#[derive(Debug, Clone)]
pub enum PortKind {
    Usb { vid: u16, pid: u16, manufacturer: Option<String>, product: Option<String>, serial_number: Option<String> },
    Pci,
    Bluetooth,
    Unknown,
}

/// One serial port as the OS lists it.
#[derive(Debug, Clone)]
pub struct PortInfo {
    pub name: String,
    pub kind: PortKind,
}

/// `serialport::available_ports`, each port as a `PortInfo`; `None` when the
/// OS list cannot be read. What the OS lists is not stated.
#[verifier::external_body]
pub(crate) fn available_ports() -> (r: Option<Vec<PortInfo>>) {
    let ports = serialport::available_ports().ok()?;
    Some(ports.into_iter().map(|p| PortInfo {
        name: p.port_name,
        kind: match p.port_type {
            serialport::SerialPortType::UsbPort(u) => PortKind::Usb {
                vid: u.vid, pid: u.pid, manufacturer: u.manufacturer, product: u.product,
                serial_number: u.serial_number,
            },
            serialport::SerialPortType::PciPort => PortKind::Pci,
            serialport::SerialPortType::BluetoothPort => PortKind::Bluetooth,
            serialport::SerialPortType::Unknown => PortKind::Unknown,
        },
    }).collect())
}

/// A USB descriptor string, trimmed, behind `prefix` — when it says anything.
pub open spec fn label_bit(o: Option<String>, prefix: Seq<char>) -> Seq<Seq<char>> {
    match o {
        Some(x) => if trim(x@).len() > 0 {
            seq![prefix + trim(x@)]
        } else {
            Seq::empty()
        },
        None => Seq::empty(),
    }
}

/// `bits` joined by ` · `.
pub open spec fn join_dot(bits: Seq<Seq<char>>) -> Seq<char>
    decreases bits.len(),
{
    if bits.len() == 0 {
        Seq::empty()
    } else if bits.len() == 1 {
        bits[0]
    } else {
        join_dot(bits.drop_last()) + " · "@ + bits.last()
    }
}

/// Four upper-case hex digits (`{:04X}`).
pub open spec fn hex4(v: u16) -> Seq<char> {
    seq![
        nibble_upper(((v / 4096) % 16) as u8),
        nibble_upper(((v / 256) % 16) as u8),
        nibble_upper(((v / 16) % 16) as u8),
        nibble_upper((v % 16) as u8),
    ]
}

/// The label a port gets in the port picker.
pub open spec fn spec_port_label(p: PortInfo) -> Seq<char> {
    match p.kind {
        PortKind::Usb { vid, pid, manufacturer, product, serial_number } => {
            let bits = label_bit(manufacturer, Seq::empty()) + label_bit(product, Seq::empty())
                + label_bit(serial_number, "SN "@);
            if bits.len() == 0 {
                p.name@ + " — USB "@ + hex4(vid) + ":"@ + hex4(pid)
            } else {
                p.name@ + " — "@ + join_dot(bits)
            }
        },
        PortKind::Pci => p.name@ + " — PCI"@,
        PortKind::Bluetooth => p.name@ + " — Bluetooth"@,
        PortKind::Unknown => p.name@,
    }
}

fn push_hex4(out: &mut Vec<char>, v: u16)
    ensures
        final(out)@ == old(out)@ + hex4(v),
{
    out.push(crate::codec::hex_upper_char(((v / 4096) % 16) as u8));
    out.push(crate::codec::hex_upper_char(((v / 256) % 16) as u8));
    out.push(crate::codec::hex_upper_char(((v / 16) % 16) as u8));
    out.push(crate::codec::hex_upper_char((v % 16) as u8));
}

fn add_bit(bits: &mut Vec<Vec<char>>, o: &Option<String>, prefix: &str)
    ensures
        chars_view(final(bits)@) == chars_view(old(bits)@) + label_bit(*o, prefix@),
{
    match o {
        Some(x) => {
            let t = trim_chars(chars_of(x.as_str()).as_slice());
            if t.len() > 0 {
                let mut b = chars_of(prefix);
                extend_chars(&mut b, t.as_slice());
                let ghost before = chars_view(bits@);
                bits.push(b);
                assert(chars_view(bits@) =~= before + seq![prefix@ + trim(x@)]);
            } else {
                assert(label_bit(*o, prefix@) =~= Seq::<Seq<char>>::empty());
                assert(chars_view(bits@) =~= chars_view(bits@) + Seq::<Seq<char>>::empty());
            }
        },
        None => {
            assert(chars_view(bits@) =~= chars_view(bits@) + Seq::<Seq<char>>::empty());
        },
    }
}

pub open spec fn chars_view(v: Seq<Vec<char>>) -> Seq<Seq<char>> {
    v.map_values(|x: Vec<char>| x@)
}

pub fn port_label(p: &PortInfo) -> (r: String)
    ensures
        r@ == spec_port_label(*p),
{
    let mut out = chars_of(p.name.as_str());
    match &p.kind {
        PortKind::Usb { vid, pid, manufacturer, product, serial_number } => {
            let mut bits: Vec<Vec<char>> = Vec::new();
            assert(chars_view(bits@) =~= Seq::<Seq<char>>::empty());
            add_bit(&mut bits, manufacturer, "");
            add_bit(&mut bits, product, "");
            add_bit(&mut bits, serial_number, "SN ");
            proof {
                reveal_strlit("");
            }
            assert(chars_view(bits@) =~= label_bit(*manufacturer, Seq::empty()) + label_bit(
                *product,
                Seq::empty(),
            ) + label_bit(*serial_number, "SN "@));
            if bits.len() == 0 {
                extend_str(&mut out, " — USB ");
                push_hex4(&mut out, *vid);
                extend_str(&mut out, ":");
                push_hex4(&mut out, *pid);
            } else {
                extend_str(&mut out, " — ");
                let mut i: usize = 0;
                let ghost head = out@;
                while i < bits.len()
                    invariant
                        i <= bits@.len(),
                        out@ == head + join_dot(chars_view(bits@).take(i as int)),
                    decreases bits@.len() - i,
                {
                    let ghost o0 = out@;
                    if i > 0 {
                        extend_str(&mut out, " · ");
                    }
                    extend_chars(&mut out, bits[i].as_slice());
                    proof {
                        let cv = chars_view(bits@);
                        assert(cv.take(i + 1).drop_last() =~= cv.take(i as int));
                        assert(cv.take(i + 1).last() == bits@[i as int]@);
                        if i == 0 {
                            assert(cv.take(0) =~= Seq::<Seq<char>>::empty());
                            assert(out@ =~= head + cv.take(1)[0]);
                        } else {
                            assert(out@ =~= o0 + " · "@ + bits@[i as int]@);
                        }
                    }
                    i = i + 1;
                }
                assert(chars_view(bits@).take(bits@.len() as int) =~= chars_view(bits@));
            }
        },
        PortKind::Pci => {
            extend_str(&mut out, " — PCI");
        },
        PortKind::Bluetooth => {
            extend_str(&mut out, " — Bluetooth");
        },
        PortKind::Unknown => {},
    }
    string_of(out.as_slice())
}

/// A property of every item carries over to a sequence with the same items.
pub proof fn lemma_multiset_forall<A>(a: Seq<A>, b: Seq<A>, p: spec_fn(A) -> bool)
    requires
        a.to_multiset() == b.to_multiset(),
        forall|i: int| 0 <= i < a.len() ==> p(#[trigger] a[i]),
    ensures
        forall|j: int| 0 <= j < b.len() ==> p(#[trigger] b[j]),
{
    broadcast use vstd::seq_lib::group_to_multiset_ensures;

    assert forall|j: int| 0 <= j < b.len() implies p(#[trigger] b[j]) by {
        assert(b.contains(b[j]));
        assert(b.to_multiset().count(b[j]) > 0);
        assert(a.contains(b[j]));
        let i = choose|i: int| 0 <= i < a.len() && a[i] == b[j];
        assert(p(a[i]));
    }
}

/// A port's row in the picker: its name and its label.
pub open spec fn port_row(p: PortInfo) -> (Seq<char>, Seq<char>) {
    (p.name@, spec_port_label(p))
}

pub open spec fn choice_row(c: PortChoice) -> (Seq<char>, Seq<char>) {
    (c.name@, c.label@)
}

/// The (name, label) rows of a port list.
pub open spec fn port_rows(ports: Seq<PortInfo>) -> Seq<(Seq<char>, Seq<char>)> {
    ports.map_values(|p: PortInfo| port_row(p))
}

pub open spec fn keyed_choice_row(x: (u8, String, String, PortChoice)) -> (Seq<char>, Seq<char>) {
    choice_row(x.3)
}

pub open spec fn keyed_choice_ok(x: (u8, String, String, PortChoice)) -> bool {
    x.0 == 0 && x.1@ == x.3.name@ && x.2@.len() == 0
}

fn copy_string(s: &String) -> (r: String)
    ensures
        r@ == s@,
{
    string_of(chars_of(s.as_str()).as_slice())
}

/// Every listed port with its label, in name order.
pub fn port_choices(ports: &Vec<PortInfo>) -> (r: Vec<PortChoice>)
    ensures
        forall|i: int, j: int| 0 <= i < j < r@.len() ==> !text_lt(r@[j].name@, r@[i].name@),
        r@.map_values(|c: PortChoice| choice_row(c)).to_multiset() == ports@.map_values(
            |p: PortInfo| port_row(p),
        ).to_multiset(),
{
    let mut items: Vec<(u8, String, String, PortChoice)> = Vec::new();
    let mut i: usize = 0;
    while i < ports.len()
        invariant
            i <= ports@.len(),
            items@.map_values(|x: (u8, String, String, PortChoice)| keyed_choice_row(x)) == ports@.take(
                i as int,
            ).map_values(|p: PortInfo| port_row(p)),
            forall|k: int| 0 <= k < items@.len() ==> keyed_choice_ok(#[trigger] items@[k]),
        decreases ports@.len() - i,
    {
        let p = &ports[i];
        let label = port_label(p);
        let c = PortChoice { name: copy_string(&p.name), label };
        let ghost before = items@;
        items.push((0u8, copy_string(&p.name), String::new(), c));
        assert(ports@.take(i + 1) =~= ports@.take(i as int).push(ports@[i as int]));
        assert(items@.map_values(|x: (u8, String, String, PortChoice)| keyed_choice_row(x)) =~= before.map_values(
            |x: (u8, String, String, PortChoice)| keyed_choice_row(x),
        ).push(port_row(*p)));
        i = i + 1;
    }
    assert(ports@.take(ports@.len() as int) =~= ports@);
    let ghost unsorted = items@;
    let sorted = sort_by_key(items);
    proof {
        lemma_map_multiset(sorted@, unsorted, |x: (u8, String, String, PortChoice)| keyed_choice_row(x));
        lemma_multiset_forall(unsorted, sorted@, |x: (u8, String, String, PortChoice)| keyed_choice_ok(x));
    }
    let mut out: Vec<PortChoice> = Vec::new();
    let mut k: usize = 0;
    while k < sorted.len()
        invariant
            k <= sorted@.len(),
            out@.len() == k,
            forall|j: int| 0 <= j < k ==> #[trigger] choice_row(out@[j]) == keyed_choice_row(sorted@[j]),
        decreases sorted@.len() - k,
    {
        let c = &sorted[k].3;
        out.push(PortChoice { name: copy_string(&c.name), label: copy_string(&c.label) });
        k = k + 1;
    }
    assert(out@.map_values(|c: PortChoice| choice_row(c)) =~= sorted@.map_values(
        |x: (u8, String, String, PortChoice)| keyed_choice_row(x),
    ));
    assert forall|i: int, j: int| 0 <= i < j < out@.len() implies !text_lt(out@[j].name@, out@[i].name@) by {
        assert(keyed_choice_ok(sorted@[i]));
        assert(keyed_choice_ok(sorted@[j]));
        assert(choice_row(out@[i]) == keyed_choice_row(sorted@[i]));
        assert(choice_row(out@[j]) == keyed_choice_row(sorted@[j]));
        assert(!key_lt(item_key(sorted@[j]), item_key(sorted@[i])));
    }
    out
}

/// Every serial port the OS reports, labelled, in name order (none when the
/// list cannot be read): the rows `port_choices` gives for the OS list.
pub fn list_serial_ports() -> (r: Vec<PortChoice>)
    ensures
        forall|i: int, j: int| 0 <= i < j < r@.len() ==> !text_lt(r@[j].name@, r@[i].name@),
        exists|ports: Seq<PortInfo>|
            r@.map_values(|c: PortChoice| choice_row(c)).to_multiset() == (#[trigger] port_rows(
                ports,
            )).to_multiset(),
{
    match available_ports() {
        Some(ports) => {
            let r = port_choices(&ports);
            assert(r@.map_values(|c: PortChoice| choice_row(c)).to_multiset() == port_rows(ports@).to_multiset());
            r
        },
        None => {
            let r: Vec<PortChoice> = Vec::new();
            let ghost none = Seq::<PortInfo>::empty();
            assert(r@.map_values(|c: PortChoice| choice_row(c)) =~= port_rows(none));
            r
        },
    }
}

// ----- which ports to probe -----

/// Probe order: real USB first, then unknown (some CH340 stacks), then
/// Bluetooth; PCI last (never probed).
pub open spec fn probe_rank(k: PortKind) -> u8 {
    match k {
        PortKind::Usb { .. } => 0,
        PortKind::Unknown => 1,
        PortKind::Bluetooth => 2,
        PortKind::Pci => 3,
    }
}

/// PCI ports (motherboard COM1, which can hang on open) are never probed;
/// Bluetooth ports only when asked.
pub open spec fn probe_wanted(k: PortKind, include_bluetooth: bool) -> bool {
    match k {
        PortKind::Pci => false,
        PortKind::Bluetooth => include_bluetooth,
        _ => true,
    }
}

pub open spec fn probe_kind(k: PortKind) -> WorkerKind {
    match k {
        PortKind::Bluetooth => WorkerKind::Bluetooth,
        _ => WorkerKind::Usb,
    }
}

/// The probe candidates among `ports`, in list order.
pub open spec fn candidate_rows(ports: Seq<PortInfo>, include_bluetooth: bool) -> Seq<(u8, Seq<char>, WorkerKind)>
    decreases ports.len(),
{
    if ports.len() == 0 {
        Seq::empty()
    } else {
        let rest = candidate_rows(ports.drop_last(), include_bluetooth);
        let p = ports.last();
        if probe_wanted(p.kind, include_bluetooth) {
            rest.push((probe_rank(p.kind), p.name@, probe_kind(p.kind)))
        } else {
            rest
        }
    }
}

pub open spec fn candidate_row(x: (u8, String, String, WorkerKind)) -> (u8, Seq<char>, WorkerKind) {
    (x.0, x.1@, x.3)
}

/// The ports worth probing, in probe order (rank, then name).
pub fn scan_candidates(ports: &Vec<PortInfo>, include_bluetooth: bool) -> (r: Vec<(u8, String, String, WorkerKind)>)
    ensures
        keys_sorted(r@),
        r@.map_values(|x: (u8, String, String, WorkerKind)| candidate_row(x)).to_multiset() == candidate_rows(
            ports@,
            include_bluetooth,
        ).to_multiset(),
{
    let mut items: Vec<(u8, String, String, WorkerKind)> = Vec::new();
    let mut i: usize = 0;
    while i < ports.len()
        invariant
            i <= ports@.len(),
            items@.map_values(|x: (u8, String, String, WorkerKind)| candidate_row(x)) == candidate_rows(
                ports@.take(i as int),
                include_bluetooth,
            ),
        decreases ports@.len() - i,
    {
        let p = &ports[i];
        assert(ports@.take(i + 1).drop_last() =~= ports@.take(i as int));
        assert(ports@.take(i + 1).last() == *p);
        let ghost before = items@;
        let row: Option<(u8, WorkerKind)> = match &p.kind {
            PortKind::Usb { .. } => Some((0u8, WorkerKind::Usb)),
            PortKind::Unknown => Some((1u8, WorkerKind::Usb)),
            PortKind::Bluetooth => if include_bluetooth {
                Some((2u8, WorkerKind::Bluetooth))
            } else {
                None
            },
            PortKind::Pci => None,
        };
        match row {
            Some((rank, kind)) => {
                items.push((rank, copy_string(&p.name), String::new(), kind));
                assert(items@.map_values(|x: (u8, String, String, WorkerKind)| candidate_row(x)) =~= before.map_values(
                    |x: (u8, String, String, WorkerKind)| candidate_row(x),
                ).push((rank, p.name@, kind)));
            },
            None => {},
        }
        i = i + 1;
    }
    assert(ports@.take(ports@.len() as int) =~= ports@);
    let ghost unsorted = items@;
    let sorted = sort_by_key(items);
    proof {
        lemma_map_multiset(sorted@, unsorted, |x: (u8, String, String, WorkerKind)| candidate_row(x));
    }
    sorted
}

/// The ports the OS lists that are worth probing, in probe order: the rows
/// `scan_candidates` gives for the OS list (none when it cannot be read).
pub fn scan_candidate_ports(include_bluetooth: bool) -> (r: Vec<(u8, String, String, WorkerKind)>)
    ensures
        keys_sorted(r@),
        exists|ports: Seq<PortInfo>|
            r@.map_values(|x: (u8, String, String, WorkerKind)| candidate_row(x)).to_multiset()
                == (#[trigger] candidate_rows(ports, include_bluetooth)).to_multiset(),
{
    match available_ports() {
        Some(ports) => {
            let r = scan_candidates(&ports, include_bluetooth);
            assert(r@.map_values(|x: (u8, String, String, WorkerKind)| candidate_row(x)).to_multiset()
                == candidate_rows(ports@, include_bluetooth).to_multiset());
            r
        },
        None => {
            let r: Vec<(u8, String, String, WorkerKind)> = Vec::new();
            let ghost none = Seq::<PortInfo>::empty();
            assert(candidate_rows(none, include_bluetooth) =~= Seq::<(u8, Seq<char>, WorkerKind)>::empty());
            assert(r@.map_values(|x: (u8, String, String, WorkerKind)| candidate_row(x)) =~= Seq::<
                (u8, Seq<char>, WorkerKind),
            >::empty());
            r
        },
    }
}

// ----- the port a flasher needs -----

/// The first listed name that is the same port as `want` (normal form).
pub open spec fn first_listed(names: Seq<Seq<char>>, want: Seq<char>) -> Option<Seq<char>>
    decreases names.len(),
{
    if names.len() == 0 {
        None
    } else if spec_normalize_port_name(names[0]) == want {
        Some(names[0])
    } else {
        first_listed(names.drop_first(), want)
    }
}

/// The port name for the flasher: the OS's own spelling of the port when
/// it lists it (flashers match names exactly), else plain `COMn`, else the
/// trimmed name.
pub open spec fn spec_flash_port_arg(name: Seq<char>, listed: Option<Seq<Seq<char>>>) -> Seq<char> {
    let want = spec_normalize_port_name(name);
    let hit = match listed {
        Some(ns) => first_listed(ns, want),
        None => None,
    };
    match hit {
        Some(p) => p,
        None => if is_com_name(want) {
            want
        } else {
            trim(name)
        },
    }
}

pub open spec fn names_view(v: Seq<String>) -> Seq<Seq<char>> {
    v.map_values(|s: String| s@)
}

pub fn flash_port_arg_among(name: &str, listed: Option<Vec<String>>) -> (r: String)
    ensures
        r@ == spec_flash_port_arg(
            name@,
            match listed {
                Some(v) => Some(names_view(v@)),
                None => None,
            },
        ),
{
    let want = normalize_port_name(name);
    match &listed {
        Some(v) => {
            let mut i: usize = 0;
            assert(names_view(v@).skip(0) =~= names_view(v@));
            while i < v.len()
                invariant
                    i <= v@.len(),
                    listed == Some(*v),
                    want@ == spec_normalize_port_name(name@),
                    first_listed(names_view(v@), want@) == first_listed(names_view(v@).skip(i as int), want@),
                decreases v@.len() - i,
            {
                let n = normalize_port_name(v[i].as_str());
                assert(names_view(v@).skip(i as int)[0] == v@[i as int]@);
                assert(names_view(v@).skip(i as int).drop_first() =~= names_view(v@).skip(i + 1));
                if n == want {
                    assert(first_listed(names_view(v@).skip(i as int), want@) == Some(v@[i as int]@));
                    return copy_string(&v[i]);
                }
                i = i + 1;
            }
            assert(names_view(v@).skip(i as int) =~= Seq::<Seq<char>>::empty());
        },
        None => {},
    }
    let wc = chars_of(want.as_str());
    proof {
        reveal_strlit("COM");
    }
    if crate::text::starts_with_str(wc.as_slice(), "COM") && wc.len() > 3
        && crate::workers::all_digits_of(wc.as_slice(), 3) {
        want
    } else {
        string_of(crate::text::trimmed(name).as_slice())
    }
}

/// `flash_port_arg_among` over the ports the OS lists right now.
pub fn flash_port_arg(name: &str) -> (r: String)
    ensures
        exists|listed: Option<Seq<Seq<char>>>| r@ == spec_flash_port_arg(name@, listed),
{
    let listed: Option<Vec<String>> = match available_ports() {
        Some(ports) => {
            let mut names: Vec<String> = Vec::new();
            let mut i: usize = 0;
            while i < ports.len()
                invariant
                    i <= ports@.len(),
                decreases ports@.len() - i,
            {
                names.push(copy_string(&ports[i].name));
                i = i + 1;
            }
            Some(names)
        },
        None => None,
    };
    let ghost lv = match &listed {
        Some(v) => Some(names_view(v@)),
        None => None,
    };
    let r = flash_port_arg_among(name, listed);
    assert(r@ == spec_flash_port_arg(name@, lv));
    r
}

} // verus!
