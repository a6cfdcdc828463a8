use vstd::prelude::*;

verus! {

/// Why an interface name does not name a Bluetooth adapter.
#[derive(Debug, Clone, Copy, PartialEq, Eq, Structural)]
pub enum BdAddressError {
    /// The name does not start with `bt-`.
    MissingPrefix,
    /// What follows `bt-` is not 12 hex digits, with or without colons.
    InvalidAddress,
}

/// The characters of a string slice, in order.
pub(crate) fn str_chars(s: &str) -> (res: Vec<char>)
    ensures
        res@ == s@,
{
    broadcast use vstd::string::axiom_spec_iter;
    let mut res: Vec<char> = Vec::new();
    for c in it: s.chars()
        invariant
            res@ == it.seq().take(it.index() as int),
            it.seq() == s@,
    {
        res.push(c);
    }
    res
}

/// A string holding the given characters.
#[verifier::external_body]
pub(crate) fn string_from_chars(chars: &Vec<char>) -> (res: String)
    ensures
        res@ == chars@,
{
    chars.iter().collect()
}

/// An ASCII lowercase letter in uppercase; any other character unchanged.
pub open spec fn ascii_upper(c: char) -> char {
    if 'a' <= c <= 'z' {
        ((c as int) - 32) as char
    } else {
        c
    }
}

/// `s` with its ASCII lowercase letters in uppercase, as
/// `str::to_ascii_uppercase` gives it.
pub open spec fn ascii_upper_seq(s: Seq<char>) -> Seq<char> {
    s.map_values(|c: char| ascii_upper(c))
}

/// `s` without its colons.
pub open spec fn remove_colons(s: Seq<char>) -> Seq<char>
    decreases s.len(),
{
    if s.len() == 0 {
        Seq::empty()
    } else if s.last() == ':' {
        remove_colons(s.drop_last())
    } else {
        remove_colons(s.drop_last()).push(s.last())
    }
}

/// An ASCII hex digit, in either case.
pub open spec fn is_hex_digit(c: char) -> bool {
    ('0' <= c <= '9') || ('A' <= c <= 'F') || ('a' <= c <= 'f')
}

pub open spec fn has_bt_prefix(name: Seq<char>) -> bool {
    name.len() >= 3 && name[0] == 'b' && name[1] == 't' && name[2] == '-'
}

/// The address part of an interface name, without its colons.
pub open spec fn address_digits(name: Seq<char>) -> Seq<char> {
    remove_colons(name.skip(3))
}

/// Exactly twelve hex digits, in either case.
pub open spec fn valid_digits(h: Seq<char>) -> bool {
    h.len() == 12 && forall|k: int| 0 <= k < 12 ==> is_hex_digit(#[trigger] h[k])
}

/// Twelve digits written as six colon-separated pairs.
pub open spec fn canonical_address(h: Seq<char>) -> Seq<char> {
    seq![
        h[0], h[1], ':', h[2], h[3], ':', h[4], h[5], ':', h[6], h[7], ':', h[8], h[9], ':',
        h[10], h[11],
    ]
}

/// What `extract_bd_address_from_interface_name` returns for a name: the
/// twelve hex digits after `bt-` (colons anywhere ignored), in uppercase,
/// as six colon-separated pairs.
pub open spec fn spec_extract_bd_address(name: Seq<char>) -> Result<Seq<char>, BdAddressError> {
    if !has_bt_prefix(name) {
        Err(BdAddressError::MissingPrefix)
    } else if !valid_digits(address_digits(name)) {
        Err(BdAddressError::InvalidAddress)
    } else {
        Ok(canonical_address(ascii_upper_seq(address_digits(name))))
    }
}

/// An uppercase ASCII hex digit.
pub open spec fn is_upper_hex_digit(c: char) -> bool {
    ('0' <= c <= '9') || ('A' <= c <= 'F')
}

/// Bluetooth interface config keys are expected in the form `bt-<address>`,
/// where `<address>` is the adapter's own Bluetooth device address (its BD
/// address), colon-separated or not. The kernel-assigned name of the device
/// (hciN) is not stable across a USB reset or reboot, but the device's own
/// hardware address is.
///
/// Returns the address in canonical colon-separated uppercase form,
/// regardless of whether it was written with or without colons. Anything
/// but 12 hex digits (and colons) after `bt-` is refused.
pub fn extract_bd_address_from_interface_name(interface_name: &str) -> (res: Result<String, BdAddressError>)
    ensures
        match spec_extract_bd_address(interface_name@) {
            Ok(address) => res matches Ok(s) && s@ == address,
            Err(e) => res == Err::<String, BdAddressError>(e),
        },
        res is Ok <==> has_bt_prefix(interface_name@) && valid_digits(address_digits(interface_name@)),
        res matches Ok(s) ==> s@.len() == 17 && forall|i: int| 0 <= i < 17 ==> (
            if i % 3 == 2 { #[trigger] s@[i] == ':' } else { is_upper_hex_digit(s@[i]) }),
{
    let chars = str_chars(interface_name);
    if !(chars.len() >= 3 && chars[0] == 'b' && chars[1] == 't' && chars[2] == '-') {
        return Err(BdAddressError::MissingPrefix);
    }
    let ghost raw = chars@.skip(3);
    let mut digits: Vec<char> = Vec::new();
    let mut i: usize = 3;
    while i < chars.len()
        invariant
            3 <= i <= chars.len(),
            raw == chars@.skip(3),
            digits@ == remove_colons(raw.take(i - 3)),
        decreases chars.len() - i,
    {
        let c = chars[i];
        proof {
            assert(raw.take(i - 2).drop_last() =~= raw.take(i - 3));
            assert(raw.take(i - 2).last() == c);
        }
        if c != ':' {
            digits.push(c);
        }
        i += 1;
    }
    assert(raw.take(chars.len() - 3) =~= raw);
    assert(digits@ == address_digits(interface_name@));

    if digits.len() != 12 {
        return Err(BdAddressError::InvalidAddress);
    }
    let mut hex: Vec<char> = Vec::new();
    let mut k: usize = 0;
    while k < 12
        invariant
            digits.len() == 12,
            digits@ == address_digits(interface_name@),
            has_bt_prefix(interface_name@),
            k <= 12,
            forall|j: int| 0 <= j < k ==> is_hex_digit(#[trigger] digits@[j]),
            hex@ == ascii_upper_seq(digits@).take(k as int),
        decreases 12 - k,
    {
        let c = digits[k];
        if ('0' <= c && c <= '9') || ('A' <= c && c <= 'F') {
            hex.push(c);
        } else if 'a' <= c && c <= 'f' {
            hex.push(((c as u8) - 32) as char);
        } else {
            assert(!is_hex_digit(digits@[k as int]));
            return Err(BdAddressError::InvalidAddress);
        }
        assert(hex@ =~= ascii_upper_seq(digits@).take(k + 1));
        k += 1;
    }
    assert(hex@ =~= ascii_upper_seq(digits@));

    let mut canonical: Vec<char> = Vec::new();
    let mut p: usize = 0;
    while p < 6
        invariant
            hex.len() == 12,
            p <= 6,
            canonical@ == canonical_address(hex@).take(if p == 0 { 0 } else { 3 * p - 1 }),
        decreases 6 - p,
    {
        if p > 0 {
            canonical.push(':');
        }
        canonical.push(hex[2 * p]);
        canonical.push(hex[2 * p + 1]);
        assert(canonical@ =~= canonical_address(hex@).take(3 * p + 2));
        p += 1;
    }
    assert(canonical@ =~= canonical_address(hex@));
    proof {
        lemma_canonical_shape(digits@);
    }
    Ok(string_from_chars(&canonical))
}

/// The canonical form of twelve hex digits is six pairs of uppercase hex
/// digits separated by colons.
proof fn lemma_canonical_shape(h: Seq<char>)
    requires
        valid_digits(h),
    ensures
        ({
            let s = canonical_address(ascii_upper_seq(h));
            s.len() == 17 && forall|i: int| 0 <= i < 17 ==> (
                if i % 3 == 2 { #[trigger] s[i] == ':' } else { is_upper_hex_digit(s[i]) })
        }),
{
    let u = ascii_upper_seq(h);
    assert forall|j: int| 0 <= j < 12 implies is_upper_hex_digit(#[trigger] u[j]) by {
        assert(is_hex_digit(h[j]));
    }
    let s = canonical_address(u);
    assert forall|i: int| 0 <= i < 17 implies (
        if i % 3 == 2 { #[trigger] s[i] == ':' } else { is_upper_hex_digit(s[i]) }) by {
        if i % 3 != 2 {
            assert(s[i] == u[i - i / 3]);
        }
    }
}

proof fn lemma_remove_colons_push(s: Seq<char>, c: char)
    ensures
        remove_colons(s.push(c)) == if c == ':' { remove_colons(s) } else { remove_colons(s).push(c) },
{
    assert(s.push(c).drop_last() =~= s);
}

proof fn lemma_remove_colons_canonical(h: Seq<char>, k: int)
    requires
        0 <= k <= 17,
        h.len() == 12,
        forall|j: int| 0 <= j < 12 ==> #[trigger] h[j] != ':',
    ensures
        remove_colons(canonical_address(h).take(k)) == h.take(k - k / 3),
    decreases k,
{
    let address = canonical_address(h);
    if k > 0 {
        lemma_remove_colons_canonical(h, k - 1);
        lemma_remove_colons_push(address.take(k - 1), address[k - 1]);
        assert(address.take(k) =~= address.take(k - 1).push(address[k - 1]));
        if (k - 1) % 3 == 2 {
            assert(h.take(k - k / 3) =~= h.take((k - 1) - (k - 1) / 3));
        } else {
            assert(address[k - 1] == h[(k - 1) - (k - 1) / 3]);
            assert(h.take(k - k / 3) =~= h.take((k - 1) - (k - 1) / 3).push(h[(k - 1) - (k - 1) / 3]));
        }
    } else {
        assert(address.take(0) =~= Seq::<char>::empty());
        assert(h.take(0) =~= Seq::<char>::empty());
    }
}

/// The canonical form an address is returned in names the same address
/// again: prefixing the returned address with `bt-` and extracting once
/// more gives back that same address.
pub proof fn lemma_canonical_address_stable(name: Seq<char>)
    ensures
        spec_extract_bd_address(name) matches Ok(address) ==> spec_extract_bd_address(seq!['b', 't', '-'] + address) == Ok::<Seq<char>, BdAddressError>(address),
{
    if let Ok(address) = spec_extract_bd_address(name) {
        let h = ascii_upper_seq(address_digits(name));
        lemma_canonical_shape(address_digits(name));
        assert forall|j: int| 0 <= j < 12 implies is_upper_hex_digit(#[trigger] h[j]) by {
            assert(is_hex_digit(address_digits(name)[j]));
        }
        let again = seq!['b', 't', '-'] + address;
        assert(again.skip(3) =~= address);
        assert(h[0] != ':' && h[1] != ':' && h[2] != ':' && h[3] != ':' && h[4] != ':' && h[5] != ':');
        assert(h[6] != ':' && h[7] != ':' && h[8] != ':' && h[9] != ':' && h[10] != ':' && h[11] != ':');
        lemma_remove_colons_canonical(h, 17);
        assert(address.take(17) =~= address);
        assert(h.take(12) =~= h);
        assert(address_digits(again) == h);
        assert(valid_digits(h));
        assert(ascii_upper_seq(h) =~= h);
    }
}

/// Two names whose addresses differ only in colons and in the case of
/// ASCII letters give the same result.
pub proof fn lemma_extract_ignores_colons_and_case(a: Seq<char>, b: Seq<char>)
    requires
        ascii_upper_seq(remove_colons(a)) == ascii_upper_seq(remove_colons(b)),
    ensures
        spec_extract_bd_address(seq!['b', 't', '-'] + a) == spec_extract_bd_address(seq!['b', 't', '-'] + b),
{
    let na = seq!['b', 't', '-'] + a;
    let nb = seq!['b', 't', '-'] + b;
    assert(na.skip(3) =~= a);
    assert(nb.skip(3) =~= b);
    let ra = remove_colons(a);
    let rb = remove_colons(b);
    assert(ra.len() == ascii_upper_seq(ra).len());
    assert(rb.len() == ascii_upper_seq(rb).len());
    assert forall|k: int| 0 <= k < ra.len() implies is_hex_digit(#[trigger] ra[k]) == is_hex_digit(rb[k]) by {
        assert(ascii_upper_seq(ra)[k] == ascii_upper_seq(rb)[k]);
    }
    if valid_digits(ra) {
        assert forall|k: int| 0 <= k < 12 implies is_hex_digit(#[trigger] rb[k]) by {
            assert(is_hex_digit(ra[k]));
        }
    }
    if valid_digits(rb) {
        assert forall|k: int| 0 <= k < 12 implies is_hex_digit(#[trigger] ra[k]) by {
            assert(is_hex_digit(rb[k]));
        }
    }
}

} // verus!
