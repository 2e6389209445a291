//! Vendor names for the organisationally unique prefix of a hardware
//! address, used for display only.

use vstd::prelude::*;

verus! {

/// What `str::to_uppercase` gives for a text: its characters in upper case
/// by Unicode's full case mapping, which may change the length.
pub uninterp spec fn upper_of(s: Seq<char>) -> Seq<char>;

/// Relies on `str::to_uppercase`, whose result depends on the characters of
/// the text alone; the characters of the result are handed back as a vector.
#[verifier::external_body]
fn uppercase(s: &str) -> (r: Vec<char>)
    ensures
        r@ == upper_of(s@),
{
    s.to_uppercase().chars().collect()
}

/// The characters of `s` without colons and dashes.
pub open spec fn strip_separators(s: Seq<char>) -> Seq<char> {
    s.filter(|c: char| c != ':' && c != '-')
}

/// The vendor whose prefix is the six characters `k`.
pub open spec fn vendor_of_key(k: Seq<char>) -> Seq<char> {
    if k == seq!['3', 'C', '5', 'A', '3', '7'] {
        "Apple"@
    } else if k == seq!['F', 'C', 'F', 'B', 'F', 'B'] {
        "Samsung"@
    } else if k == seq!['A', '4', 'C', '1', '3', '8'] {
        "Dell"@
    } else if k == seq!['0', '0', '1', '6', '3', 'E'] {
        "Cisco"@
    } else if k == seq!['0', '0', '1', 'A', '2', 'B'] {
        "Hewlett-Packard"@
    } else if k == seq!['F', '4', 'F', '5', 'E', '8'] {
        "Sony"@
    } else if k == seq!['F', '0', 'D', 'E', '6', '1'] {
        "Microsoft"@
    } else if k == seq!['3', 'C', '5', 'A', 'B', '4'] {
        "Apple"@
    } else if k == seq!['B', '8', '2', '7', 'E', 'B'] {
        "Raspberry Pi Foundation"@
    } else {
        "Unknown"@
    }
}

/// The vendor for an upper-case hardware address: separators are dropped and
/// the first six characters looked up; `Unknown` when fewer remain or none
/// matches.
pub open spec fn vendor_name(upper: Seq<char>) -> Seq<char> {
    let key = strip_separators(upper);
    if key.len() < 6 {
        "Unknown"@
    } else {
        vendor_of_key(key.subrange(0, 6))
    }
}

/// Whether `key` begins with the six characters of `oui`.
fn starts_with_key(key: &Vec<char>, oui: &[char; 6]) -> (r: bool)
    requires
        key@.len() >= 6,
    ensures
        r == (key@.subrange(0, 6) == oui@),
{
    let mut i: usize = 0;
    while i < 6
        invariant
            i <= 6,
            key@.len() >= 6,
            forall|k: int| 0 <= k < i ==> key@[k] == #[trigger] oui@[k],
        decreases 6 - i,
    {
        if key[i] != oui[i] {
            assert(key@.subrange(0, 6)[i as int] != oui@[i as int]);
            return false;
        }
        i = i + 1;
    }
    assert(key@.subrange(0, 6) =~= oui@);
    true
}

/// The vendor for an address that is already in upper case.
pub fn vendor_from_upper(upper: &Vec<char>) -> (r: &'static str)
    ensures
        r@ == vendor_name(upper@),
{
    let mut key: Vec<char> = Vec::new();
    let mut i: usize = 0;
    while i < upper.len()
        invariant
            i <= upper@.len(),
            key@ == strip_separators(upper@.subrange(0, i as int)),
        decreases upper@.len() - i,
    {
        let c = upper[i];
        proof {
            let f = |c: char| c != ':' && c != '-';
            assert(upper@.subrange(0, i + 1) =~= upper@.subrange(0, i as int).push(c));
            upper@.subrange(0, i as int).lemma_filter_push(c, f);
        }
        if c != ':' && c != '-' {
            key.push(c);
        }
        i = i + 1;
    }
    assert(upper@.subrange(0, upper@.len() as int) =~= upper@);
    if key.len() < 6 {
        return "Unknown";
    }
    if starts_with_key(&key, &['3', 'C', '5', 'A', '3', '7']) {
        return "Apple";
    }
    if starts_with_key(&key, &['F', 'C', 'F', 'B', 'F', 'B']) {
        return "Samsung";
    }
    if starts_with_key(&key, &['A', '4', 'C', '1', '3', '8']) {
        return "Dell";
    }
    if starts_with_key(&key, &['0', '0', '1', '6', '3', 'E']) {
        return "Cisco";
    }
    if starts_with_key(&key, &['0', '0', '1', 'A', '2', 'B']) {
        return "Hewlett-Packard";
    }
    if starts_with_key(&key, &['F', '4', 'F', '5', 'E', '8']) {
        return "Sony";
    }
    if starts_with_key(&key, &['F', '0', 'D', 'E', '6', '1']) {
        return "Microsoft";
    }
    if starts_with_key(&key, &['3', 'C', '5', 'A', 'B', '4']) {
        return "Apple";
    }
    if starts_with_key(&key, &['B', '8', '2', '7', 'E', 'B']) {
        return "Raspberry Pi Foundation";
    }
    "Unknown"
}

/// The vendor for hardware address `mac`, in any case and with or without
/// colons or dashes between its digits.
pub fn lookup_oui(mac: &str) -> (r: &'static str)
    ensures
        r@ == vendor_name(upper_of(mac@)),
{
    let upper = uppercase(mac);
    vendor_from_upper(&upper)
}

} // verus!
