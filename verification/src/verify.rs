//! Integrity checking of the shipped data files: the manifest that lists every
//! file with its XXH3-128 hash, and the verdicts a check reaches.

use vstd::prelude::*;
use vstd::string::StringSliceAdditionalSpecFns;
use base64::Engine;
use std::str::Utf8Error;
use xxhash_rust::xxh3::Xxh3;

use crate::strings::{before_first, concat, prefix_before, replace_char, replaced, starts_with, str_eq};

verus! {

/// One file that did not pass, and why.
pub struct Failure {
    pub path: String,
    pub reason: String,
}

/// The outcome of a check: whether everything passed, what did not, and how
/// many files were looked at.
pub struct VerifyReport {
    pub ok: bool,
    pub failures: Vec<Failure>,
    pub checked: usize,
}

/// The report of a check that could not read its manifest: not ok, nothing
/// checked, one failure against `checks.dat` giving `reason`.
pub fn manifest_failure(reason: String) -> (r: VerifyReport)
    ensures
        !r.ok,
        r.checked == 0,
        r.failures@.len() == 1,
        r.failures@[0].path@ == "checks.dat"@,
        r.failures@[0].reason@ == "manifest_unreadable: "@ + reason@,
{
    let mut failures = Vec::new();
    failures.push(Failure { path: "checks.dat".to_owned(), reason: concat("manifest_unreadable: ", reason.as_str()) });
    VerifyReport { ok: false, failures, checked: 0 }
}

/// A manifest with no entries would verify nothing and pass vacuously, so it
/// fails as unreadable: the report for it, or `None` when there are entries.
pub fn refuse_empty_manifest(entries: usize) -> (r: Option<VerifyReport>)
    ensures
        r is Some <==> entries == 0,
        r matches Some(report) ==> {
            &&& !report.ok
            &&& report.checked == 0
            &&& report.failures@.len() == 1
            &&& report.failures@[0].path@ == "checks.dat"@
            &&& report.failures@[0].reason@ == "manifest_unreadable: manifest is empty"@
        },
{
    if entries == 0 {
        let report = manifest_failure("manifest is empty".to_owned());
        proof {
            reveal_strlit("manifest_unreadable: ");
            reveal_strlit("manifest is empty");
            reveal_strlit("manifest_unreadable: manifest is empty");
            assert("manifest_unreadable: "@ + "manifest is empty"@ =~= "manifest_unreadable: manifest is empty"@);
        }
        Some(report)
    } else {
        None
    }
}

impl VerifyReport {
    /// The report of a check that looked at `checked` files and found
    /// `failures`: ok exactly when there are none.
    pub fn from_failures(failures: Vec<Failure>, checked: usize) -> (r: Self)
        ensures
            r.ok == (failures@.len() == 0),
            r.failures == failures,
            r.checked == checked,
    {
        let ok = failures.len() == 0;
        VerifyReport { ok, failures, checked }
    }
}

/// The failure of a file on disk that the manifest does not list.
pub fn missing_from_manifest(key: String) -> (f: Failure)
    ensures
        f.path == key,
        f.reason@ == "missing_from_manifest"@,
{
    Failure { path: key, reason: "missing_from_manifest".to_owned() }
}

/// The verdict on a listed file: `actual` is its hash, or the message of the
/// error that stopped it being read. A read error fails it as `io_error: `
/// and the message, a different hash as `hash_mismatch`; the listed hash
/// passes it.
pub fn hash_outcome(key: String, expected: &String, actual: Result<String, String>) -> (r: Option<Failure>)
    ensures
        match actual {
            Err(e) => (r matches Some(f) && f.path == key && f.reason@ == "io_error: "@ + e@),
            Ok(h) => if h@ == expected@ {
                r is None
            } else {
                (r matches Some(f) && f.path == key && f.reason@ == "hash_mismatch"@)
            },
        },
{
    match actual {
        Err(e) => Some(Failure { path: key, reason: concat("io_error: ", e.as_str()) }),
        Ok(h) => {
            if h == *expected {
                None
            } else {
                Some(Failure { path: key, reason: "hash_mismatch".to_owned() })
            }
        },
    }
}

/// The listed keys that are not among the walked ones, in list order.
pub open spec fn absent_keys(keys: Seq<String>, walked: Seq<String>) -> Seq<Seq<char>>
    decreases keys.len(),
{
    if keys.len() == 0 {
        Seq::empty()
    } else {
        let rest = absent_keys(keys.drop_last(), walked);
        if exists|j: int| 0 <= j < walked.len() && (#[trigger] walked[j])@ == keys.last()@ {
            rest
        } else {
            rest.push(keys.last()@)
        }
    }
}

/// One `missing_from_disk` failure for each manifest key no walked file has,
/// in the order of `manifest_keys`: the file was deleted or replaced by
/// something the walk skips.
pub fn missing_from_disk(manifest_keys: &[String], walked: &[String]) -> (r: Vec<Failure>)
    ensures
        r@.len() == absent_keys(manifest_keys@, walked@).len(),
        forall|i: int| 0 <= i < r@.len() ==> (#[trigger] r@[i]).path@ == absent_keys(manifest_keys@, walked@)[i]
            && r@[i].reason@ == "missing_from_disk"@,
{
    let mut r: Vec<Failure> = Vec::new();
    let mut i: usize = 0;
    while i < manifest_keys.len()
        invariant
            i <= manifest_keys@.len(),
            r@.len() == absent_keys(manifest_keys@.take(i as int), walked@).len(),
            forall|k: int| 0 <= k < r@.len() ==> (#[trigger] r@[k]).path@ == absent_keys(manifest_keys@.take(i as int), walked@)[k]
                && r@[k].reason@ == "missing_from_disk"@,
        decreases manifest_keys@.len() - i,
    {
        let key = &manifest_keys[i];
        let mut found = false;
        let mut j: usize = 0;
        while j < walked.len()
            invariant
                j <= walked@.len(),
                key == manifest_keys@[i as int],
                found == exists|k: int| 0 <= k < j && (#[trigger] walked@[k])@ == key@,
            decreases walked@.len() - j,
        {
            if walked[j] == *key {
                found = true;
            }
            j += 1;
        }
        proof {
            let t = manifest_keys@.take(i + 1);
            assert(t.drop_last() =~= manifest_keys@.take(i as int));
            assert(t.last() == *key);
        }
        if !found {
            r.push(Failure { path: key.clone(), reason: "missing_from_disk".to_owned() });
        }
        i += 1;
    }
    assert(manifest_keys@.take(manifest_keys@.len() as int) =~= manifest_keys@);
    r
}

/// `x` is the top-level entry of one of the first `n` keys.
pub open spec fn root_of_some(keys: Seq<String>, n: int, x: Seq<char>) -> bool {
    exists|t: int| 0 <= t < n && x == before_first((#[trigger] keys[t])@, '/')
}

/// `x` is one of `roots`.
pub open spec fn listed(roots: Seq<String>, x: Seq<char>) -> bool {
    exists|i: int| 0 <= i < roots.len() && (#[trigger] roots[i])@ == x
}

/// The top-level entry of each key, each once, in the order they first turn up.
pub open spec fn root_texts(keys: Seq<String>) -> Seq<Seq<char>>
    decreases keys.len(),
{
    if keys.len() == 0 {
        Seq::empty()
    } else {
        let prev = root_texts(keys.drop_last());
        let x = before_first(keys.last()@, '/');
        if prev.contains(x) {
            prev
        } else {
            prev.push(x)
        }
    }
}

/// The top-level entries a manifest names: the part of each key before its
/// first `/` (the whole key when it has none), each once, in the order they
/// first turn up.
pub fn manifest_roots(keys: &[String]) -> (roots: Vec<String>)
    ensures
        roots@.len() == root_texts(keys@).len(),
        forall|i: int| 0 <= i < roots@.len() ==> (#[trigger] roots@[i])@ == root_texts(keys@)[i],
        forall|i: int, j: int| 0 <= i < j < roots@.len() ==> (#[trigger] roots@[i])@ != (#[trigger] roots@[j])@,
        forall|i: int| 0 <= i < roots@.len() ==> root_of_some(keys@, keys@.len() as int, (#[trigger] roots@[i])@),
        forall|k: int| 0 <= k < keys@.len() ==> listed(roots@, before_first((#[trigger] keys@[k])@, '/')),
{
    let mut roots: Vec<String> = Vec::new();
    let mut k: usize = 0;
    while k < keys.len()
        invariant
            k <= keys@.len(),
            forall|i: int, j: int| 0 <= i < j < roots@.len() ==> (#[trigger] roots@[i])@ != (#[trigger] roots@[j])@,
            forall|i: int| 0 <= i < roots@.len() ==> root_of_some(keys@, k as int, (#[trigger] roots@[i])@),
            forall|t: int| 0 <= t < k ==> listed(roots@, before_first((#[trigger] keys@[t])@, '/')),
            roots@.len() == root_texts(keys@.take(k as int)).len(),
            forall|i: int| 0 <= i < roots@.len() ==> (#[trigger] roots@[i])@ == root_texts(keys@.take(k as int))[i],
        decreases keys@.len() - k,
    {
        let root = prefix_before(keys[k].as_str(), '/');
        let mut seen = false;
        let mut j: usize = 0;
        while j < roots.len()
            invariant
                j <= roots@.len(),
                seen == exists|i: int| 0 <= i < j && (#[trigger] roots@[i])@ == root@,
            decreases roots@.len() - j,
        {
            if roots[j] == root {
                seen = true;
            }
            j += 1;
        }
        let ghost before = roots@;
        proof {
            let t = keys@.take(k as int + 1);
            assert(t.drop_last() =~= keys@.take(k as int));
            assert(t.last() == keys@[k as int]);
            let prev = root_texts(keys@.take(k as int));
            if seen {
                let i = choose|i: int| 0 <= i < before.len() && (#[trigger] before[i])@ == root@;
                assert(prev[i] == root@);
                assert(prev.contains(root@));
            } else {
                assert forall|i: int| 0 <= i < prev.len() implies prev[i] != root@ by {
                    assert(before[i]@ == prev[i]);
                }
                assert(!prev.contains(root@));
            }
        }
        if !seen {
            roots.push(root);
        }
        proof {
            assert forall|i: int| 0 <= i < roots@.len() implies root_of_some(keys@, k + 1, (#[trigger] roots@[i])@) by {
                if i < before.len() {
                    assert(roots@[i] == before[i]);
                    assert(root_of_some(keys@, k as int, before[i]@));
                    let t = choose|t: int| 0 <= t < k && before[i]@ == before_first((#[trigger] keys@[t])@, '/');
                    assert(before[i]@ == before_first(keys@[t]@, '/'));
                } else {
                    assert(roots@[i]@ == before_first(keys@[k as int]@, '/'));
                }
            }
            assert forall|t: int| 0 <= t < k + 1 implies listed(roots@, before_first((#[trigger] keys@[t])@, '/')) by {
                if t < k {
                    assert(listed(before, before_first(keys@[t]@, '/')));
                    let i = choose|i: int| 0 <= i < before.len() && (#[trigger] before[i])@ == before_first(keys@[t]@, '/');
                    assert(roots@[i] == before[i]);
                } else if seen {
                    let i = choose|i: int| 0 <= i < before.len() && (#[trigger] before[i])@ == root@;
                    assert(roots@[i] == before[i]);
                } else {
                    assert(roots@[before.len() as int]@ == root@);
                }
            }
        }
        k += 1;
    }
    assert(keys@.take(keys@.len() as int) =~= keys@);
    roots
}

/// A file's path relative to the data root, with `\` separators turned into `/`.
pub fn manifest_key(relative_path: &str) -> (key: String)
    ensures
        key@ == replace_char(relative_path@, '\\', '/'),
{
    replaced(relative_path, '\\', '/')
}

/// The characters `char::is_whitespace` accepts: those with the Unicode
/// White_Space property.
pub open spec fn is_white_space(c: char) -> bool {
    ||| ('\u{9}' <= c <= '\u{d}')
    ||| c == ' '
    ||| c == '\u{85}'
    ||| c == '\u{a0}'
    ||| c == '\u{1680}'
    ||| ('\u{2000}' <= c <= '\u{200a}')
    ||| c == '\u{2028}'
    ||| c == '\u{2029}'
    ||| c == '\u{202f}'
    ||| c == '\u{205f}'
    ||| c == '\u{3000}'
}

/// `t` is `s` with its leading and trailing whitespace removed.
pub open spec fn is_trim_of(s: Seq<char>, t: Seq<char>) -> bool {
    exists|a: int, b: int|
        #![trigger s.subrange(a, b)]
        0 <= a <= b <= s.len() && t == s.subrange(a, b)
            && (forall|i: int| 0 <= i < a ==> is_white_space(#[trigger] s[i]))
            && (forall|i: int| b <= i < s.len() ==> is_white_space(#[trigger] s[i]))
            && (a < b ==> !is_white_space(s[a]) && !is_white_space(s[b - 1]))
}

/// `str::trim`: the text without leading and trailing whitespace, whitespace
/// being what `char::is_whitespace` accepts, as its documentation says.
#[verifier::external_body]
fn trim(s: &str) -> (t: &str)
    ensures
        is_trim_of(s@, t@),
{
    s.trim()
}

/// `std::str::Utf8Error`, why bytes are not UTF-8.
#[verifier::external_type_specification]
#[verifier::external_body]
pub struct ExUtf8Error(Utf8Error);

/// `std::str::from_utf8`: the bytes read as text when they are valid UTF-8.
#[verifier::external_body]
fn from_utf8(bytes: &[u8]) -> (r: Result<&str, Utf8Error>)
    ensures
        r is Ok <==> vstd::utf8::valid_utf8(bytes@),
        r matches Ok(s) ==> s@ == vstd::utf8::decode_utf8(bytes@),
{
    std::str::from_utf8(bytes)
}

/// The `Display` text of a `Utf8Error`, which says nothing this library reads.
#[verifier::external_body]
fn describe_utf8_error(e: &Utf8Error) -> String {
    e.to_string()
}

/// What the standard base64 alphabet (with padding) decodes `text` to, or
/// `None` when `text` is not such base64.
pub uninterp spec fn base64_standard(text: Seq<u8>) -> Option<Seq<u8>>;

/// `base64::engine::general_purpose::STANDARD.decode`: the bytes the text
/// decodes to, or the `Display` text of the decoding error.
#[verifier::external_body]
fn base64_decode(text: &[u8]) -> (r: Result<Vec<u8>, String>)
    ensures
        r is Ok <==> base64_standard(text@) is Some,
        r matches Ok(v) ==> v@ == base64_standard(text@)->0,
{
    match base64::engine::general_purpose::STANDARD.decode(text) {
        Ok(v) => Ok(v),
        Err(e) => Err(e.to_string()),
    }
}

/// The JSON text inside a manifest file: the file's bytes must be UTF-8, and
/// the text, trimmed of surrounding whitespace, standard base64. Either
/// failure is an error whose message says which.
pub fn decode_manifest(raw: &[u8]) -> (r: Result<Vec<u8>, String>)
    ensures
        !vstd::utf8::valid_utf8(raw@) ==> (r matches Err(e) && starts_with(e@, "checks.dat is not UTF-8: "@)),
        vstd::utf8::valid_utf8(raw@) ==> exists|t: Seq<char>| #[trigger] is_trim_of(vstd::utf8::decode_utf8(raw@), t) && {
            let decoded = base64_standard(vstd::utf8::encode_utf8(t));
            match decoded {
                Some(json) => (r matches Ok(v) && v@ == json),
                None => (r matches Err(e) && starts_with(e@, "checks.dat is not valid base64: "@)),
            }
        },
{
    let text = match from_utf8(raw) {
        Ok(text) => text,
        Err(e) => {
            let message = concat("checks.dat is not UTF-8: ", describe_utf8_error(&e).as_str());
            proof { lemma_starts_with_concat("checks.dat is not UTF-8: "@, message@); }
            return Err(message);
        },
    };
    let trimmed = trim(text);
    match base64_decode(trimmed.as_bytes()) {
        Ok(json) => {
            assert(is_trim_of(vstd::utf8::decode_utf8(raw@), trimmed@));
            Ok(json)
        },
        Err(e) => {
            let message = concat("checks.dat is not valid base64: ", e.as_str());
            proof { lemma_starts_with_concat("checks.dat is not valid base64: "@, message@); }
            assert(is_trim_of(vstd::utf8::decode_utf8(raw@), trimmed@));
            Err(message)
        },
    }
}

/// A text made of a prefix and more begins with that prefix.
proof fn lemma_starts_with_concat(prefix: Seq<char>, s: Seq<char>)
    requires
        exists|rest: Seq<char>| s == prefix + rest,
    ensures
        starts_with(s, prefix),
{
    let rest = choose|rest: Seq<char>| s == prefix + rest;
    assert(s.subrange(0, prefix.len() as int) =~= prefix);
}

/// The XXH3-128 hash (default secret and seed) of `data`.
pub uninterp spec fn xxh3_128(data: Seq<u8>) -> u128;

/// `xxhash_rust::xxh3::Xxh3`, a streaming XXH3 hasher.
#[verifier::external_type_specification]
#[verifier::external_body]
pub struct ExXxh3(Xxh3);

/// The bytes a streaming hasher has been fed so far.
pub uninterp spec fn fed_bytes(h: Xxh3) -> Seq<u8>;

/// `Xxh3::new`: a hasher with the default secret and seed, fed nothing yet.
#[verifier::external_body]
fn xxh3_new() -> (h: Xxh3)
    ensures
        fed_bytes(h) == Seq::<u8>::empty(),
{
    Xxh3::new()
}

/// `Xxh3::update`: feeds the hasher `input`.
#[verifier::external_body]
fn xxh3_update(h: &mut Xxh3, input: &[u8])
    ensures
        fed_bytes(*final(h)) == fed_bytes(*old(h)) + input@,
{
    h.update(input)
}

/// `Xxh3::digest128`: the 128-bit hash of everything fed so far, the same as
/// hashing it all in one go.
#[verifier::external_body]
fn xxh3_digest128(h: &Xxh3) -> (d: u128)
    ensures
        d == xxh3_128(fed_bytes(*h)),
{
    h.digest128()
}

/// The uppercase hex digit of `n` (below 16).
pub open spec fn upper_hex_digit(n: int) -> char {
    if n < 10 {
        (48 + n) as char
    } else {
        (55 + n) as char
    }
}

/// The last `n` hex digits of `v`, most significant first, zero-padded.
pub open spec fn upper_hex(v: nat, n: nat) -> Seq<char>
    decreases n,
{
    if n == 0 {
        Seq::empty()
    } else {
        upper_hex(v / 16, (n - 1) as nat) + seq![upper_hex_digit((v % 16) as int)]
    }
}

/// A 128-bit hash as 32 uppercase hex digits, zero-padded.
pub fn hash_hex(digest: u128) -> (s: String)
    ensures
        s@ == upper_hex(digest as nat, 32),
{
    let mut digits: Vec<char> = Vec::new();
    let mut rest = digest;
    let mut i: usize = 0;
    while i < 32
        invariant
            i <= 32,
            digits@.len() == i,
            upper_hex(digest as nat, 32) == upper_hex(rest as nat, (32 - i) as nat) + digits@.reverse(),
        decreases 32 - i,
    {
        let d = (rest % 16) as u8;
        let c = if d < 10 { (48u8 + d) as char } else { (55u8 + d) as char };
        proof {
            assert(upper_hex(rest as nat, (32 - i) as nat) == upper_hex((rest / 16) as nat, (32 - i - 1) as nat) + seq![c]);
            assert(digits@.push(c).reverse() =~= seq![c] + digits@.reverse());
        }
        digits.push(c);
        rest = rest / 16;
        i += 1;
    }
    assert(upper_hex(rest as nat, 0) =~= Seq::<char>::empty());
    let mut s = String::new();
    let mut k: usize = 32;
    while k > 0
        invariant
            k <= 32,
            digits@.len() == 32,
            s@ == digits@.reverse().take((32 - k) as int),
        decreases k,
    {
        k -= 1;
        crate::strings::push_char(&mut s, digits[k]);
        assert(s@ =~= digits@.reverse().take((32 - k) as int));
    }
    assert(digits@.reverse().take(32) =~= digits@.reverse());
    s
}

/// Hashes a file's contents piece by piece with XXH3-128.
pub struct ContentHasher {
    state: Xxh3,
}

impl ContentHasher {
    /// The bytes fed so far.
    pub closed spec fn fed(&self) -> Seq<u8> {
        fed_bytes(self.state)
    }

    /// A hasher fed nothing yet.
    pub fn new() -> (h: Self)
        ensures
            h.fed() == Seq::<u8>::empty(),
    {
        ContentHasher { state: xxh3_new() }
    }

    /// Feeds the next piece of the contents.
    pub fn update(&mut self, chunk: &[u8])
        ensures
            final(self).fed() == old(self).fed() + chunk@,
    {
        xxh3_update(&mut self.state, chunk);
    }

    /// The hash of everything fed, as 32 uppercase hex digits: the same however
    /// the contents were split into pieces.
    pub fn finish_hex(&self) -> (s: String)
        ensures
            s@ == upper_hex(xxh3_128(self.fed()) as nat, 32),
    {
        hash_hex(xxh3_digest128(&self.state))
    }
}


/// `a` sorts no later than `b` in byte-wise lexicographic order, the order
/// of `str`'s `Ord`: the first differing byte decides, and a prefix comes
/// first.
pub open spec fn bytes_le(a: Seq<u8>, b: Seq<u8>) -> bool
    decreases a.len(),
{
    if a.len() == 0 {
        true
    } else if b.len() == 0 {
        false
    } else if a[0] != b[0] {
        a[0] < b[0]
    } else {
        bytes_le(a.drop_first(), b.drop_first())
    }
}

/// What a failure is sorted by: the UTF-8 bytes of its path.
pub open spec fn path_key(f: Failure) -> Seq<u8> {
    vstd::utf8::encode_utf8(f.path@)
}

/// `f` placed into `s` after every failure whose path sorts no later than its
/// own, found by walking back from the end.
pub open spec fn insert_by_path(s: Seq<Failure>, f: Failure) -> Seq<Failure>
    decreases s.len(),
{
    if s.len() == 0 {
        seq![f]
    } else if bytes_le(path_key(s.last()), path_key(f)) {
        s.push(f)
    } else {
        insert_by_path(s.drop_last(), f).push(s.last())
    }
}

/// `s` stably sorted by path: each failure in turn placed after all earlier
/// ones with a path that sorts no later.
pub open spec fn sort_by_path(s: Seq<Failure>) -> Seq<Failure>
    decreases s.len(),
{
    if s.len() == 0 {
        s
    } else {
        insert_by_path(sort_by_path(s.drop_last()), s.last())
    }
}

/// The failures among the outcomes of the listed files, in order.
pub open spec fn present(outcomes: Seq<Option<Failure>>) -> Seq<Failure>
    decreases outcomes.len(),
{
    if outcomes.len() == 0 {
        Seq::empty()
    } else {
        let rest = present(outcomes.drop_last());
        match outcomes.last() {
            Some(f) => rest.push(f),
            None => rest,
        }
    }
}

/// Whether `a` sorts no later than `b`, byte by byte.
fn text_le(a: &str, b: &str) -> (r: bool)
    ensures
        r == bytes_le(a.spec_bytes(), b.spec_bytes()),
{
    let x = a.as_bytes();
    let y = b.as_bytes();
    let mut i: usize = 0;
    assert(x@.skip(0) =~= x@ && y@.skip(0) =~= y@);
    while i < x.len()
        invariant
            x@ == a.spec_bytes(),
            y@ == b.spec_bytes(),
            i <= x@.len(),
            i <= y@.len(),
            bytes_le(x@, y@) == bytes_le(x@.skip(i as int), y@.skip(i as int)),
        decreases x@.len() - i,
    {
        if i == y.len() {
            assert(x@.skip(i as int).len() > 0 && y@.skip(i as int).len() == 0);
            return false;
        }
        if x[i] != y[i] {
            assert(x@.skip(i as int)[0] == x@[i as int]);
            assert(y@.skip(i as int)[0] == y@[i as int]);
            return x[i] < y[i];
        }
        assert(x@.skip(i as int)[0] == y@.skip(i as int)[0]);
        assert(x@.skip(i as int).drop_first() =~= x@.skip(i + 1));
        assert(y@.skip(i as int).drop_first() =~= y@.skip(i + 1));
        i += 1;
    }
    assert(x@.skip(i as int).len() == 0);
    true
}

/// Places `f` into `sorted` after every failure whose path sorts no later
/// than its own.
fn insert_failure(sorted: &mut Vec<Failure>, f: Failure)
    ensures
        final(sorted)@ == insert_by_path(old(sorted)@, f),
{
    let ghost s = sorted@;
    let mut j: usize = sorted.len();
    assert(s.take(j as int) =~= s);
    assert(insert_by_path(s.take(j as int), f) + s.skip(j as int) =~= insert_by_path(s, f));
    while j > 0
        invariant
            sorted@ == s,
            j <= s.len(),
            insert_by_path(s, f) == insert_by_path(s.take(j as int), f) + s.skip(j as int),
        ensures
            sorted@ == s,
            j <= s.len(),
            insert_by_path(s, f) == insert_by_path(s.take(j as int), f) + s.skip(j as int),
            j == 0 || bytes_le(path_key(s[j - 1]), path_key(f)),
        decreases j,
    {
        if text_le(sorted[j - 1].path.as_str(), f.path.as_str()) {
            break;
        }
        proof {
            let t = s.take(j as int);
            assert(t.last() == s[j - 1]);
            assert(t.drop_last() =~= s.take(j - 1));
            assert(s.skip(j - 1) =~= seq![s[j - 1]] + s.skip(j as int));
            assert(insert_by_path(t, f) == insert_by_path(s.take(j - 1), f).push(s[j - 1]));
            assert(insert_by_path(s.take(j - 1), f).push(s[j - 1]) + s.skip(j as int)
                =~= insert_by_path(s.take(j - 1), f) + s.skip(j - 1));
        }
        j -= 1;
    }
    proof {
        let t = s.take(j as int);
        if j == 0 {
            assert(t =~= Seq::<Failure>::empty());
            assert(insert_by_path(t, f) =~= t.push(f));
        } else {
            assert(t.last() == s[j - 1]);
            assert(insert_by_path(t, f) == t.push(f));
        }
        assert(t.push(f) + s.skip(j as int) =~= s.insert(j as int, f));
    }
    sorted.insert(j, f);
}

/// The report of a finished check: the failures among the outcomes of the
/// walked files, then the manifest entries missing from disk, all sorted by
/// path (a stable sort); ok exactly when there are none.
pub fn finish_report(outcomes: Vec<Option<Failure>>, missing_from_disk: Vec<Failure>, checked: usize) -> (r: VerifyReport)
    ensures
        r.failures@ == sort_by_path(present(outcomes@) + missing_from_disk@),
        r.ok == (r.failures@.len() == 0),
        r.checked == checked,
{
    let ghost all_outcomes = outcomes@;
    let mut outcomes = outcomes;
    let mut failures: Vec<Failure> = Vec::new();
    let ghost mut taken: nat = 0;
    while outcomes.len() > 0
        invariant
            taken <= all_outcomes.len(),
            outcomes@ == all_outcomes.skip(taken as int),
            failures@ == present(all_outcomes.take(taken as int)),
        decreases outcomes@.len(),
    {
        let outcome = outcomes.remove(0);
        proof {
            assert(outcome == all_outcomes[taken as int]);
            let t = all_outcomes.take(taken as int + 1);
            assert(t.drop_last() =~= all_outcomes.take(taken as int));
            assert(t.last() == outcome);
            taken = taken + 1;
            assert(outcomes@ =~= all_outcomes.skip(taken as int));
        }
        match outcome {
            Some(f) => failures.push(f),
            None => {},
        }
    }
    assert(all_outcomes.take(taken as int) =~= all_outcomes);

    let ghost listed = failures@ + missing_from_disk@;
    let mut missing = missing_from_disk;
    failures.append(&mut missing);
    assert(failures@ =~= listed);

    let mut sorted: Vec<Failure> = Vec::new();
    let ghost mut placed: nat = 0;
    while failures.len() > 0
        invariant
            placed <= listed.len(),
            failures@ == listed.skip(placed as int),
            sorted@ == sort_by_path(listed.take(placed as int)),
        decreases failures@.len(),
    {
        let f = failures.remove(0);
        proof {
            assert(f == listed[placed as int]);
            let t = listed.take(placed as int + 1);
            assert(t.drop_last() =~= listed.take(placed as int));
            assert(t.last() == f);
        }
        insert_failure(&mut sorted, f);
        proof {
            placed = placed + 1;
            assert(failures@ =~= listed.skip(placed as int));
        }
    }
    assert(listed.take(placed as int) =~= listed);
    VerifyReport::from_failures(sorted, checked)
}



/// The hash the manifest lists for `key`: that of its first entry with that
/// path, if any.
pub open spec fn listed_hash(manifest: Seq<(String, String)>, key: Seq<char>) -> Option<Seq<char>>
    decreases manifest.len(),
{
    if manifest.len() == 0 {
        None
    } else if manifest[0].0@ == key {
        Some(manifest[0].1@)
    } else {
        listed_hash(manifest.drop_first(), key)
    }
}

/// `o` is the verdict on the walked file `key`: a file the manifest does not
/// list fails as `missing_from_manifest`; a listed one was read, and fails on
/// a read error (`io_error: ` and the message) or a different hash
/// (`hash_mismatch`), and passes on the listed hash.
pub open spec fn walked_outcome(
    manifest: Seq<(String, String)>,
    key: String,
    read: Option<Result<String, String>>,
    o: Option<Failure>,
) -> bool {
    match listed_hash(manifest, key@) {
        None => o matches Some(f) && f.path == key && f.reason@ == "missing_from_manifest"@,
        Some(expected) => match read {
            Some(Err(e)) => o matches Some(f) && f.path == key && f.reason@ == "io_error: "@ + e@,
            Some(Ok(h)) => if h@ == expected {
                o is None
            } else {
                o matches Some(f) && f.path == key && f.reason@ == "hash_mismatch"@
            },
            None => false,
        },
    }
}

/// The manifest's paths, in order.
pub open spec fn manifest_paths(manifest: Seq<(String, String)>) -> Seq<String> {
    Seq::new(manifest.len(), |i: int| manifest[i].0)
}

/// Looks `key` up in the manifest.
fn lookup_hash(manifest: &[(String, String)], key: &str) -> (r: Option<String>)
    ensures
        match listed_hash(manifest@, key@) {
            Some(h) => r matches Some(s) && s@ == h,
            None => r is None,
        },
{
    let mut i: usize = 0;
    assert(manifest@.skip(0) =~= manifest@);
    while i < manifest.len()
        invariant
            i <= manifest@.len(),
            listed_hash(manifest@, key@) == listed_hash(manifest@.skip(i as int), key@),
        decreases manifest@.len() - i,
    {
        assert(manifest@.skip(i as int)[0] == manifest@[i as int]);
        assert(manifest@.skip(i as int).drop_first() =~= manifest@.skip(i + 1));
        if str_eq(manifest[i].0.as_str(), key) {
            return Some(manifest[i].1.clone());
        }
        i += 1;
    }
    None
}

/// The report of a whole check: `walked` are the keys of the files found on
/// disk and `reads` what reading each gave (its hash, or the read error),
/// read only where the manifest lists the file. Each walked file gets its
/// verdict, every listed path no walked file has fails as
/// `missing_from_disk`, and the failures come sorted by path; the report
/// counts the walked files.
pub fn check_report(
    manifest: &[(String, String)],
    walked: &[String],
    reads: Vec<Option<Result<String, String>>>,
) -> (r: VerifyReport)
    requires
        reads@.len() == walked@.len(),
        forall|i: int| 0 <= i < walked@.len() && (#[trigger] listed_hash(manifest@, walked@[i]@)) is Some ==> reads@[i] is Some,
    ensures
        r.checked == walked@.len(),
        r.ok == (r.failures@.len() == 0),
        exists|outcomes: Seq<Option<Failure>>, missing: Seq<Failure>| {
            &&& outcomes.len() == walked@.len()
            &&& forall|i: int| 0 <= i < walked@.len() ==> walked_outcome(manifest@, walked@[i], reads@[i], #[trigger] outcomes[i])
            &&& missing.len() == absent_keys(manifest_paths(manifest@), walked@).len()
            &&& forall|i: int| 0 <= i < missing.len() ==> (#[trigger] missing[i]).path@ == absent_keys(manifest_paths(manifest@), walked@)[i]
                && missing[i].reason@ == "missing_from_disk"@
            &&& r.failures@ == sort_by_path(present(outcomes) + missing)
        },
{
    let ghost all_reads = reads@;
    let mut reads = reads;
    let mut outcomes: Vec<Option<Failure>> = Vec::new();
    let mut i: usize = 0;
    while i < walked.len()
        invariant
            i <= walked@.len(),
            all_reads.len() == walked@.len(),
            reads@ == all_reads.skip(i as int),
            outcomes@.len() == i,
            forall|k: int| 0 <= k < walked@.len() && (#[trigger] listed_hash(manifest@, walked@[k]@)) is Some ==> all_reads[k] is Some,
            forall|k: int| 0 <= k < i ==> walked_outcome(manifest@, walked@[k], all_reads[k], #[trigger] outcomes@[k]),
        decreases walked@.len() - i,
    {
        let read = reads.remove(0);
        assert(read == all_reads[i as int]);
        let key = walked[i].clone();
        let outcome = match lookup_hash(manifest, key.as_str()) {
            None => Some(missing_from_manifest(key)),
            Some(expected) => {
                assert(listed_hash(manifest@, walked@[i as int]@) is Some);
                match read {
                    Some(actual) => hash_outcome(key, &expected, actual),
                    None => None,
                }
            },
        };
        outcomes.push(outcome);
        proof {
            assert(reads@ =~= all_reads.skip(i + 1));
        }
        i += 1;
    }

    let mut paths: Vec<String> = Vec::new();
    let mut j: usize = 0;
    while j < manifest.len()
        invariant
            j <= manifest@.len(),
            paths@ == manifest_paths(manifest@).take(j as int),
        decreases manifest@.len() - j,
    {
        paths.push(manifest[j].0.clone());
        assert(paths@ =~= manifest_paths(manifest@).take(j + 1));
        j += 1;
    }
    assert(paths@ =~= manifest_paths(manifest@));

    let missing = missing_from_disk(&paths, walked);
    let ghost o = outcomes@;
    let ghost m = missing@;
    let report = finish_report(outcomes, missing, walked.len());
    assert(forall|k: int| 0 <= k < walked@.len() ==> walked_outcome(manifest@, walked@[k], all_reads[k], #[trigger] o[k]));
    report
}

/// Failures in order of their paths.
pub open spec fn sorted_by_path(s: Seq<Failure>) -> bool {
    forall|i: int, j: int| 0 <= i < j < s.len() ==> bytes_le(path_key(#[trigger] s[i]), path_key(#[trigger] s[j]))
}

/// Of two byte strings, one sorts no later than the other.
proof fn lemma_bytes_le_total(a: Seq<u8>, b: Seq<u8>)
    ensures
        bytes_le(a, b) || bytes_le(b, a),
    decreases a.len(),
{
    if a.len() > 0 && b.len() > 0 && a[0] == b[0] {
        lemma_bytes_le_total(a.drop_first(), b.drop_first());
    }
}

/// Sorting no later is transitive.
proof fn lemma_bytes_le_transitive(a: Seq<u8>, b: Seq<u8>, c: Seq<u8>)
    requires
        bytes_le(a, b),
        bytes_le(b, c),
    ensures
        bytes_le(a, c),
    decreases a.len(),
{
    if a.len() > 0 && b.len() > 0 && c.len() > 0 && a[0] == b[0] && b[0] == c[0] {
        lemma_bytes_le_transitive(a.drop_first(), b.drop_first(), c.drop_first());
    }
}

/// Placing a failure adds exactly that failure: one more element, the same
/// multiset plus `f`, and every element is `f` or was already there.
proof fn lemma_insert_members(s: Seq<Failure>, f: Failure)
    ensures
        insert_by_path(s, f).len() == s.len() + 1,
        insert_by_path(s, f).to_multiset() == s.to_multiset().insert(f),
        forall|i: int| 0 <= i < s.len() + 1 ==> #[trigger] insert_by_path(s, f)[i] == f || s.contains(insert_by_path(s, f)[i]),
    decreases s.len(),
{
    broadcast use vstd::seq_lib::group_to_multiset_ensures;

    if s.len() == 0 {
        assert(seq![f] =~= Seq::<Failure>::empty().push(f));
        assert(s =~= Seq::<Failure>::empty());
    } else if bytes_le(path_key(s.last()), path_key(f)) {
    } else {
        let dl = s.drop_last();
        lemma_insert_members(dl, f);
        assert(s =~= dl.push(s.last()));
        let r = insert_by_path(dl, f);
        assert forall|i: int| 0 <= i < s.len() + 1 implies #[trigger] insert_by_path(s, f)[i] == f || s.contains(insert_by_path(s, f)[i]) by {
            if i < s.len() {
                assert(insert_by_path(s, f)[i] == r[i]);
                if r[i] != f {
                    let k = choose|k: int| 0 <= k < dl.len() && dl[k] == r[i];
                    assert(s[k] == r[i]);
                }
            } else {
                assert(s[s.len() - 1] == s.last());
            }
        }
    }
}

/// Placing a failure into failures sorted by path keeps them sorted.
proof fn lemma_insert_keeps_sorted(s: Seq<Failure>, f: Failure)
    requires
        sorted_by_path(s),
    ensures
        sorted_by_path(insert_by_path(s, f)),
    decreases s.len(),
{
    let r = insert_by_path(s, f);
    if s.len() == 0 {
    } else if bytes_le(path_key(s.last()), path_key(f)) {
        assert forall|i: int, j: int| 0 <= i < j < r.len() implies bytes_le(path_key(#[trigger] r[i]), path_key(#[trigger] r[j])) by {
            if j == s.len() {
                if i < s.len() - 1 {
                    lemma_bytes_le_transitive(path_key(s[i]), path_key(s.last()), path_key(f));
                }
            } else {
                assert(r[i] == s[i] && r[j] == s[j]);
            }
        }
    } else {
        let dl = s.drop_last();
        let inner = insert_by_path(dl, f);
        lemma_insert_keeps_sorted(dl, f);
        lemma_insert_members(dl, f);
        lemma_bytes_le_total(path_key(s.last()), path_key(f));
        assert forall|i: int, j: int| 0 <= i < j < r.len() implies bytes_le(path_key(#[trigger] r[i]), path_key(#[trigger] r[j])) by {
            if j == r.len() - 1 {
                assert(r[j] == s.last());
                assert(r[i] == inner[i]);
                if inner[i] != f {
                    let k = choose|k: int| 0 <= k < dl.len() && dl[k] == inner[i];
                    assert(dl[k] == s[k]);
                }
            } else {
                assert(r[i] == inner[i] && r[j] == inner[j]);
            }
        }
    }
}

/// A finished report lists its failures in order of their paths, and lists
/// exactly the failures it was given, each as often as it was given.
pub proof fn lemma_report_is_sorted_by_path(s: Seq<Failure>)
    ensures
        sorted_by_path(sort_by_path(s)),
        sort_by_path(s).to_multiset() == s.to_multiset(),
        sort_by_path(s).len() == s.len(),
    decreases s.len(),
{
    broadcast use vstd::seq_lib::group_to_multiset_ensures;

    if s.len() > 0 {
        let dl = s.drop_last();
        lemma_report_is_sorted_by_path(dl);
        lemma_insert_keeps_sorted(sort_by_path(dl), s.last());
        lemma_insert_members(sort_by_path(dl), s.last());
        assert(s =~= dl.push(s.last()));
    }
}


/// Surrounding whitespace does not change what a manifest decodes to: a text
/// made of whitespace, then `core`, then whitespace, where `core` neither
/// begins nor ends with whitespace, trims to `core` and to nothing else.
pub proof fn lemma_surrounding_whitespace_is_trimmed(front: Seq<char>, core: Seq<char>, back: Seq<char>, t: Seq<char>)
    requires
        forall|i: int| 0 <= i < front.len() ==> is_white_space(#[trigger] front[i]),
        forall|i: int| 0 <= i < back.len() ==> is_white_space(#[trigger] back[i]),
        core.len() > 0 ==> !is_white_space(core[0]) && !is_white_space(core[core.len() - 1]),
        is_trim_of(front + core + back, t),
    ensures
        t == core,
{
    let s = front + core + back;
    let f = front.len() as int;
    let e = f + core.len();
    let (a, b) = choose|a: int, b: int|
        #![trigger s.subrange(a, b)]
        0 <= a <= b <= s.len() && t == s.subrange(a, b)
            && (forall|i: int| 0 <= i < a ==> is_white_space(#[trigger] s[i]))
            && (forall|i: int| b <= i < s.len() ==> is_white_space(#[trigger] s[i]))
            && (a < b ==> !is_white_space(s[a]) && !is_white_space(s[b - 1]));
    assert forall|i: int| 0 <= i < f implies is_white_space(#[trigger] s[i]) by {
        assert(s[i] == front[i]);
    }
    assert forall|i: int| e <= i < s.len() implies is_white_space(#[trigger] s[i]) by {
        assert(s[i] == back[i - e]);
    }
    if core.len() > 0 {
        assert(s[f] == core[0]);
        assert(s[e - 1] == core[core.len() - 1]);
        if a > f {
            assert(is_white_space(s[f]));
        }
        if b < e {
            assert(is_white_space(s[e - 1]));
        }
        if a == b {
            if a <= f {
                assert(is_white_space(s[f]));
            }
        }
        assert(a < b);
        assert(a == f);
        assert(b == e);
        assert(t =~= core);
    } else {
        if a < b {
            assert(is_white_space(s[a]));
        }
        assert(t =~= core);
    }
}

} // verus!
