//! The decisions of the self-update: which release tag the GitHub API
//! answered, and whether it is newer than the running version.
use vstd::prelude::*;
use vstd::string::StrSliceExecFns;
use vstd::string::StringExecFns;

verus! {

/// The characters of `s`.
fn chars_of(s: &str) -> (r: Vec<char>)
    ensures
        r@ == s@,
{
    let mut out: Vec<char> = Vec::new();
    for c in it: s.chars()
        invariant
            out@ == it.seq().take(it.index() as int),
    {
        out.push(c);
    }
    out
}

// ─── Finding the tag ────────────────────────────────────────────────────────

/// Unicode `White_Space`, the characters that `char::is_whitespace` accepts.
pub open spec fn is_white_space(c: char) -> bool {
    let u = c as u32;
    ||| (0x09 <= u && u <= 0x0D)
    ||| u == 0x20
    ||| u == 0x85
    ||| u == 0xA0
    ||| u == 0x1680
    ||| (0x2000 <= u && u <= 0x200A)
    ||| u == 0x2028
    ||| u == 0x2029
    ||| u == 0x202F
    ||| u == 0x205F
    ||| u == 0x3000
}

fn is_white_space_exec(c: char) -> (r: bool)
    ensures
        r == is_white_space(c),
{
    let u = c as u32;
    (0x09 <= u && u <= 0x0D) || u == 0x20 || u == 0x85 || u == 0xA0 || u == 0x1680 || (0x2000
        <= u && u <= 0x200A) || u == 0x2028 || u == 0x2029 || u == 0x202F || u == 0x205F || u
        == 0x3000
}

/// The first position at or after `from` where `pat` occurs in `s`.
pub open spec fn find_from(s: Seq<char>, pat: Seq<char>, from: int) -> Option<int>
    decreases s.len() + 1 - from,
{
    if from < 0 || from + pat.len() > s.len() {
        None
    } else if s.subrange(from, from + pat.len()) == pat {
        Some(from)
    } else {
        find_from(s, pat, from + 1)
    }
}

/// The first position at or after `from` that is not white space (or the end).
pub open spec fn skip_white_space(s: Seq<char>, from: int) -> int
    decreases s.len() - from,
{
    if from >= s.len() || from < 0 {
        from
    } else if is_white_space(s[from]) {
        skip_white_space(s, from + 1)
    } else {
        from
    }
}

/// `"tag_name"`, with its quotes.
pub open spec fn tag_key() -> Seq<char> {
    seq!['"', 't', 'a', 'g', '_', 'n', 'a', 'm', 'e', '"']
}

/// The string value of the first `"tag_name"` key of a JSON text: after
/// the key, the first `:`, then white space, then a quoted string without
/// escapes.
pub open spec fn tag_name_spec(json: Seq<char>) -> Option<Seq<char>> {
    match find_from(json, tag_key(), 0) {
        None => None,
        Some(start) => match find_from(json, seq![':'], start + 10) {
            None => None,
            Some(colon) => {
                let q = skip_white_space(json, colon + 1);
                if q < json.len() && json[q] == '"' {
                    match find_from(json, seq!['"'], q + 1) {
                        None => None,
                        Some(end) => Some(json.subrange(q + 1, end)),
                    }
                } else {
                    None
                }
            },
        },
    }
}

fn find(s: &Vec<char>, pat: &Vec<char>, from: usize) -> (r: Option<usize>)
    requires
        pat@.len() >= 1,
    ensures
        match r {
            None => find_from(s@, pat@, from as int) is None,
            Some(i) => find_from(s@, pat@, from as int) == Some(i as int) && from <= i && i
                + pat@.len() <= s@.len(),
        },
{
    let n = s.len();
    let mut i = from;
    while i <= n && n - i >= pat.len()
        invariant
            from <= i,
            n == s@.len(),
            pat@.len() >= 1,
            find_from(s@, pat@, from as int) == find_from(s@, pat@, i as int),
        decreases s@.len() - i,
    {
        let mut k: usize = 0;
        let mut same = true;
        while k < pat.len()
            invariant
                i + pat@.len() <= n,
                n == s@.len(),
                k <= pat@.len(),
                same == (forall|j: int| 0 <= j < k ==> s@[i + j] == pat@[j]),
            decreases pat@.len() - k,
        {
            if s[i + k] != pat[k] {
                same = false;
            }
            k += 1;
        }
        if same {
            assert(s@.subrange(i as int, i + pat@.len()) =~= pat@);
            return Some(i);
        } else {
            proof {
                let j = choose|j: int| 0 <= j < pat@.len() && s@[i + j] != pat@[j];
                assert(s@.subrange(i as int, i + pat@.len())[j] != pat@[j]);
            }
        }
        i += 1;
    }
    None
}

/// The tag name in the JSON answer of the GitHub releases API.
pub fn parse_tag_name(json: &str) -> (r: Option<String>)
    ensures
        match r {
            None => tag_name_spec(json@) is None,
            Some(t) => tag_name_spec(json@) == Some(t@),
        },
{
    let cs = chars_of(json);
    let n = cs.len();
    let key = vec!['"', 't', 'a', 'g', '_', 'n', 'a', 'm', 'e', '"'];
    assert(key@ =~= tag_key());
    let start = match find(&cs, &key, 0) {
        Some(s) => s,
        None => {
            return None;
        },
    };
    assert(start + 10 <= n);
    let colon_pat = vec![':'];
    assert(colon_pat@ =~= seq![':']);
    let colon = match find(&cs, &colon_pat, start + 10) {
        Some(c) => c,
        None => {
            return None;
        },
    };
    assert(colon + 1 <= n);
    let mut q = colon + 1;
    while q < cs.len() && is_white_space_exec(cs[q])
        invariant
            colon + 1 <= q,
            skip_white_space(cs@, colon + 1) == skip_white_space(cs@, q as int),
        decreases cs@.len() - q,
    {
        q += 1;
    }
    if !(q < cs.len() && cs[q] == '"') {
        return None;
    }
    let quote_pat = vec!['"'];
    assert(quote_pat@ =~= seq!['"']);
    let end = match find(&cs, &quote_pat, q + 1) {
        Some(e) => e,
        None => {
            return None;
        },
    };
    let t = json.substring_char(q + 1, end);
    Some(t.to_owned())
}

// ─── Comparing versions ─────────────────────────────────────────────────────

/// `s` cut at each `.`, as `str::split('.')` cuts it.
pub open spec fn split_dots(s: Seq<char>) -> Seq<Seq<char>>
    decreases s.len(),
{
    if s.len() == 0 {
        seq![Seq::empty()]
    } else {
        let p = split_dots(s.drop_last());
        if s.last() == '.' {
            p.push(Seq::empty())
        } else {
            p.update(p.len() - 1, p.last().push(s.last()))
        }
    }
}

/// The value of a string of decimal digits.
pub open spec fn decimal_value(d: Seq<char>) -> nat
    decreases d.len(),
{
    if d.len() == 0 {
        0
    } else {
        decimal_value(d.drop_last()) * 10 + ((d.last() as u32) - ('0' as u32)) as nat
    }
}

pub open spec fn is_digit(c: char) -> bool {
    '0' <= c <= '9'
}

pub open spec fn all_digits(d: Seq<char>) -> bool {
    forall|i: int| 0 <= i < d.len() ==> is_digit(#[trigger] d[i])
}

/// `s` without its leading `+`, if any.
pub open spec fn unsigned_digits(s: Seq<char>) -> Seq<char> {
    if s.len() > 0 && s[0] == '+' {
        s.skip(1)
    } else {
        s
    }
}

/// What `str::parse::<u32>` gives: an optional `+`, then one or more
/// decimal digits whose value fits in 32 bits.
pub open spec fn parse_u32_spec(s: Seq<char>) -> Option<u32> {
    let d = unsigned_digits(s);
    if d.len() == 0 {
        None
    } else if !all_digits(d) {
        None
    } else if decimal_value(d) > u32::MAX {
        None
    } else {
        Some(decimal_value(d) as u32)
    }
}

/// The number of the `i`-th dotted component, 0 when it is missing or not a number.
pub open spec fn component(s: Seq<char>, i: int) -> u32 {
    let segs = split_dots(s);
    if i < segs.len() {
        match parse_u32_spec(segs[i]) {
            Some(v) => v,
            None => 0,
        }
    } else {
        0
    }
}

/// `(major, minor, patch)` of a version string.
pub open spec fn version_spec(s: Seq<char>) -> (u32, u32, u32) {
    (component(s, 0), component(s, 1), component(s, 2))
}

/// `a` comes after `b`, comparing the components in order.
pub open spec fn triple_gt(a: (u32, u32, u32), b: (u32, u32, u32)) -> bool {
    a.0 > b.0 || (a.0 == b.0 && (a.1 > b.1 || (a.1 == b.1 && a.2 > b.2)))
}

proof fn lemma_split_len(s: Seq<char>)
    ensures
        split_dots(s).len() >= 1,
    decreases s.len(),
{
    if s.len() > 0 {
        lemma_split_len(s.drop_last());
    }
}

fn parse_u32(s: &Vec<char>) -> (r: Option<u32>)
    ensures
        r == parse_u32_spec(s@),
{
    let mut i: usize = 0;
    if s.len() > 0 && s[0] == '+' {
        i = 1;
    }
    let ghost d = unsigned_digits(s@);
    assert(d =~= s@.skip(i as int));
    if s.len() == i {
        return None;
    }
    let mut acc: u64 = 0;
    let start = i;
    while i < s.len()
        invariant
            start <= i <= s@.len(),
            start < s@.len(),
            d == s@.skip(start as int),
            d == unsigned_digits(s@),
            forall|j: int| 0 <= j < i - start ==> is_digit(#[trigger] d[j]),
            acc == decimal_value(d.take(i - start)),
            acc <= u32::MAX,
        decreases s@.len() - i,
    {
        let c = s[i];
        assert(d[i - start] == c);
        if !('0' <= c && c <= '9') {
            assert(!is_digit(d[i - start]));
            assert(!all_digits(d));
            return None;
        }
        let dig = (c as u32 - '0' as u32) as u64;
        proof {
            assert(d.take(i - start + 1).drop_last() =~= d.take(i - start));
            assert(d.take(i - start + 1).last() == c);
        }
        acc = acc * 10 + dig;
        assert(acc == decimal_value(d.take(i - start + 1)));
        if acc > 0xFFFF_FFFF {
            proof {
                if all_digits(d) {
                    lemma_decimal_prefix_le(d, i - start + 1);
                }
            }
            return None;
        }
        i += 1;
    }
    assert(d.take(s@.len() - start) =~= d);
    Some(acc as u32)
}

proof fn lemma_decimal_prefix_le(d: Seq<char>, k: int)
    requires
        0 <= k <= d.len(),
        forall|i: int| 0 <= i < d.len() ==> is_digit(#[trigger] d[i]),
    ensures
        decimal_value(d.take(k)) <= decimal_value(d),
    decreases d.len() - k,
{
    if k < d.len() {
        lemma_decimal_prefix_le(d, k + 1);
        assert(d.take(k + 1).drop_last() =~= d.take(k));
        assert(is_digit(d.take(k + 1).last()));
        assert(decimal_value(d.take(k + 1)) == decimal_value(d.take(k)) * 10 + ((d.take(k
            + 1).last() as u32) - ('0' as u32)) as nat);
    } else {
        assert(d.take(k) =~= d);
    }
}

/// Splits `s` at each `.`.
fn split_dots_exec(s: &Vec<char>) -> (r: Vec<Vec<char>>)
    ensures
        r@.map_values(|v: Vec<char>| v@) == split_dots(s@),
{
    let mut segs: Vec<Vec<char>> = Vec::new();
    segs.push(Vec::new());
    assert(segs@.map_values(|v: Vec<char>| v@) =~= split_dots(s@.take(0)));
    let mut i: usize = 0;
    while i < s.len()
        invariant
            i <= s@.len(),
            segs@.len() >= 1,
            segs@.map_values(|v: Vec<char>| v@) == split_dots(s@.take(i as int)),
        decreases s@.len() - i,
    {
        let c = s[i];
        let ghost before = segs@.map_values(|v: Vec<char>| v@);
        proof {
            assert(s@.take(i + 1).drop_last() =~= s@.take(i as int));
            assert(s@.take(i + 1).last() == c);
        }
        if c == '.' {
            segs.push(Vec::new());
            assert(segs@.map_values(|v: Vec<char>| v@) =~= before.push(Seq::empty()));
        } else {
            let last = segs.len() - 1;
            let mut cur = segs.pop().unwrap();
            cur.push(c);
            segs.push(cur);
            assert(segs@.map_values(|v: Vec<char>| v@) =~= before.update(
                before.len() - 1,
                before.last().push(c),
            ));
        }
        i += 1;
    }
    assert(s@.take(s@.len() as int) =~= s@);
    segs
}

fn version(v: &str) -> (r: (u32, u32, u32))
    ensures
        r == version_spec(v@),
{
    let cs = chars_of(v);
    let segs = split_dots_exec(&cs);
    proof {
        lemma_split_len(cs@);
    }
    let mut parts: [u32; 3] = [0, 0, 0];
    assert(cs@ == v@);
    let mut k: usize = 0;
    while k < 3
        invariant
            k <= 3,
            segs@.map_values(|v: Vec<char>| v@) == split_dots(v@),
            forall|j: int| 0 <= j < k ==> parts@[j] == component(v@, j),
            forall|j: int| k <= j < 3 ==> parts@[j] == 0,
        decreases 3 - k,
    {
        if k < segs.len() {
            assert(segs@[k as int]@ == split_dots(v@)[k as int]);
            parts[k] = match parse_u32(&segs[k]) {
                Some(x) => x,
                None => 0,
            };
        }
        k += 1;
    }
    (parts[0], parts[1], parts[2])
}

/// Whether the version `latest` comes after `current`.
pub fn is_newer(latest: &str, current: &str) -> (r: bool)
    ensures
        r == triple_gt(version_spec(latest@), version_spec(current@)),
{
    let a = version(latest);
    let b = version(current);
    a.0 > b.0 || (a.0 == b.0 && (a.1 > b.1 || (a.1 == b.1 && a.2 > b.2)))
}


// ─── Where the release lives ────────────────────────────────────────────────

/// `tag` without its leading `v`s.
pub open spec fn strip_v(tag: Seq<char>) -> Seq<char>
    decreases tag.len(),
{
    if tag.len() > 0 && tag[0] == 'v' {
        strip_v(tag.drop_first())
    } else {
        tag
    }
}

proof fn lemma_strip_v_skip(tag: Seq<char>, i: int)
    requires
        0 <= i <= tag.len(),
        forall|j: int| 0 <= j < i ==> tag[j] == 'v',
    ensures
        strip_v(tag) == strip_v(tag.skip(i)),
    decreases i,
{
    if i > 0 {
        lemma_strip_v_skip(tag.drop_first(), i - 1);
        assert(tag.drop_first().skip(i - 1) =~= tag.skip(i));
    } else {
        assert(tag.skip(0) =~= tag);
    }
}

/// The version a release tag names: the tag without its leading `v`s.
pub fn tag_version(tag: &str) -> (r: String)
    ensures
        r@ == strip_v(tag@),
{
    let cs = chars_of(tag);
    let mut i: usize = 0;
    while i < cs.len() && cs[i] == 'v'
        invariant
            i <= cs@.len(),
            cs@ == tag@,
            forall|j: int| 0 <= j < i ==> tag@[j] == 'v',
        decreases cs@.len() - i,
    {
        i += 1;
    }
    proof {
        lemma_strip_v_skip(tag@, i as int);
        let rest = tag@.skip(i as int);
        assert(rest.len() > 0 ==> rest[0] == cs@[i as int]);
    }
    let rest = tag.substring_char(i, cs.len());
    assert(rest@ =~= tag@.skip(i as int));
    rest.to_owned()
}

/// The name of the release binary for an operating system and processor:
/// `piadazip-<os>-<arch>`, with `.exe` on Windows.
pub fn release_binary_name(os: &str, arch: &str, windows: bool) -> (r: String)
    ensures
        r@ == "piadazip-"@ + os@ + "-"@ + arch@ + if windows {
            ".exe"@
        } else {
            Seq::<char>::empty()
        },
{
    let mut s = String::new();
    s.append("piadazip-");
    s.append(os);
    s.append("-");
    s.append(arch);
    if windows {
        s.append(".exe");
    } else {
        assert(s@ =~= s@ + Seq::<char>::empty());
    }
    s
}

/// Where a release binary is downloaded from.
pub fn download_url(tag: &str, bin_name: &str) -> (r: String)
    ensures
        r@ == "https://github.com/Tnnienn/piadazip/releases/download/"@ + tag@ + "/"@ + bin_name@,
{
    let mut s = String::new();
    s.append("https://github.com/Tnnienn/piadazip/releases/download/");
    s.append(tag);
    s.append("/");
    s.append(bin_name);
    s
}
} // verus!
