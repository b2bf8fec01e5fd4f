//! Trust on first use for server certificates. The known-hosts file pins,
//! for each host, the fingerprint of the certificate it showed first; a
//! later connection must show the same one. The file holds one
//! `host fingerprint` line per host, in sorted order.
use vstd::prelude::*;
use vstd::string::StrSliceExecFns;
use vstd::string::StringExecFns;
use crate::digest::{blake3_digest, blake3_hash};
use crate::receiver::{hex_of, hex_digit_str};
use crate::sizes::{is_white_space, white_space, chars_of, split_on, field_bounds, lemma_split_nonempty};

verus! {

/// Fingerprint of a certificate: the lower-case hexadecimal BLAKE3 hash of
/// its DER bytes.
pub fn cert_fingerprint(cert_der: &[u8]) -> (r: String)
    ensures
        r@ == hex_of(blake3_digest(cert_der@)),
{
    let d = blake3_hash(cert_der);
    let mut out = String::new();
    let mut i: usize = 0;
    proof {
        assert(d@.take(0) =~= Seq::<u8>::empty());
    }
    while i < 32
        invariant
            i <= 32,
            d@.len() == 32,
            out@ == hex_of(d@.take(i as int)),
        decreases 32 - i,
    {
        let b = d[i];
        out.append(hex_digit_str(b / 16));
        out.append(hex_digit_str(b % 16));
        proof {
            assert(d@.take(i + 1).drop_last() =~= d@.take(i as int));
            assert(out@ =~= hex_of(d@.take(i + 1)));
        }
        i = i + 1;
    }
    proof {
        assert(d@.take(32) =~= d@);
    }
    out
}

/// What to do with a server's certificate fingerprint.
#[derive(Debug, Clone, Copy, PartialEq, Eq, Structural)]
pub enum HostKeyCheck {
    /// The pinned fingerprint matches.
    Trusted,
    /// The host is unknown: pin this fingerprint.
    PinNew,
    /// The pinned fingerprint differs: refuse the connection.
    Mismatch,
}

fn same_text(a: &str, b: &str) -> (r: bool)
    ensures
        r == (a@ == b@),
{
    let n = a.unicode_len();
    if n != b.unicode_len() {
        return false;
    }
    let mut i: usize = 0;
    while i < n
        invariant
            i <= n,
            n == a@.len(),
            n == b@.len(),
            forall|j: int| 0 <= j < i ==> a@[j] == b@[j],
        decreases n - i,
    {
        if a.get_char(i) != b.get_char(i) {
            return false;
        }
        i = i + 1;
    }
    proof {
        assert(a@ =~= b@);
    }
    true
}

/// Checks a fingerprint against the one pinned for the host, if any.
pub fn check_known_host(pinned: Option<&str>, fingerprint: &str) -> (r: HostKeyCheck)
    ensures
        pinned is None ==> r == HostKeyCheck::PinNew,
        pinned matches Some(p) ==> (if p@ == fingerprint@ { r == HostKeyCheck::Trusted } else { r == HostKeyCheck::Mismatch }),
{
    match pinned {
        None => HostKeyCheck::PinNew,
        Some(p) => {
            if same_text(p, fingerprint) {
                HostKeyCheck::Trusted
            } else {
                HostKeyCheck::Mismatch
            }
        },
    }
}

// ---------------------------------------------------------------------------
// Words of a line
// ---------------------------------------------------------------------------

/// Length of the run of non-white-space characters that starts `s`.
pub open spec fn word_len(s: Seq<char>) -> nat
    decreases s.len(),
{
    if s.len() > 0 && !is_white_space(s[0]) {
        1 + word_len(s.drop_first())
    } else {
        0
    }
}

pub proof fn lemma_word_len_bound(s: Seq<char>)
    ensures
        word_len(s) <= s.len(),
    decreases s.len(),
{
    if s.len() > 0 {
        lemma_word_len_bound(s.drop_first());
    }
}

/// The white-space separated words of `s`, as `str::split_whitespace`
/// gives them.
pub open spec fn words(s: Seq<char>) -> Seq<Seq<char>>
    decreases s.len(),
{
    if s.len() == 0 {
        Seq::empty()
    } else if is_white_space(s[0]) {
        words(s.drop_first())
    } else {
        proof {
            lemma_word_len_bound(s);
        }
        seq![s.take(word_len(s) as int)] + words(s.skip(word_len(s) as int))
    }
}

proof fn lemma_words_skip_space(s: Seq<char>, a: int, k: int, b: int)
    requires
        0 <= a <= k <= b <= s.len(),
        forall|j: int| a <= j < k ==> is_white_space(#[trigger] s[j]),
    ensures
        words(s.subrange(a, b)) == words(s.subrange(k, b)),
    decreases k - a,
{
    if a < k {
        assert(s.subrange(a, b)[0] == s[a]);
        assert(s.subrange(a, b).drop_first() =~= s.subrange(a + 1, b));
        lemma_words_skip_space(s, a + 1, k, b);
    }
}

proof fn lemma_word_len_run(s: Seq<char>, k: int, e: int, b: int)
    requires
        0 <= k <= e <= b <= s.len(),
        forall|j: int| k <= j < e ==> !is_white_space(#[trigger] s[j]),
        e == b || is_white_space(s[e]),
    ensures
        word_len(s.subrange(k, b)) == e - k,
    decreases e - k,
{
    if k < e {
        assert(s.subrange(k, b)[0] == s[k]);
        assert(s.subrange(k, b).drop_first() =~= s.subrange(k + 1, b));
        lemma_word_len_run(s, k + 1, e, b);
    } else if e < b {
        assert(s.subrange(k, b)[0] == s[e]);
    }
}

proof fn lemma_words_word(s: Seq<char>, k: int, e: int, b: int)
    requires
        0 <= k < e <= b <= s.len(),
        forall|j: int| k <= j < e ==> !is_white_space(#[trigger] s[j]),
        e == b || is_white_space(s[e]),
    ensures
        words(s.subrange(k, b)) == seq![s.subrange(k, e)] + words(s.subrange(e, b)),
{
    lemma_word_len_run(s, k, e, b);
    let t = s.subrange(k, b);
    assert(t[0] == s[k]);
    assert(t.take(e - k) =~= s.subrange(k, e));
    assert(t.skip(e - k) =~= s.subrange(e, b));
}

proof fn lemma_words_nonempty(s: Seq<char>, k: int, b: int)
    requires
        0 <= k < b <= s.len(),
        !is_white_space(s[k]),
    ensures
        words(s.subrange(k, b)).len() >= 1,
{
    assert(s.subrange(k, b)[0] == s[k]);
}

/// First index at or after `i` (and before `b`) that is not white space,
/// or `b`.
fn skip_space(chars: &Vec<char>, i: usize, b: usize) -> (k: usize)
    requires
        i <= b <= chars@.len(),
    ensures
        i <= k <= b,
        forall|j: int| i <= j < k ==> is_white_space(#[trigger] chars@[j]),
        k == b || !is_white_space(chars@[k as int]),
{
    let mut k = i;
    while k < b && white_space(chars[k])
        invariant
            i <= k <= b <= chars@.len(),
            forall|j: int| i <= j < k ==> is_white_space(#[trigger] chars@[j]),
        decreases b - k,
    {
        k = k + 1;
    }
    k
}

/// First index at or after `i` (and before `b`) that is white space, or `b`.
fn skip_word(chars: &Vec<char>, i: usize, b: usize) -> (e: usize)
    requires
        i <= b <= chars@.len(),
    ensures
        i <= e <= b,
        forall|j: int| i <= j < e ==> !is_white_space(#[trigger] chars@[j]),
        e == b || is_white_space(chars@[e as int]),
{
    let mut e = i;
    while e < b && !white_space(chars[e])
        invariant
            i <= e <= b <= chars@.len(),
            forall|j: int| i <= j < e ==> !is_white_space(#[trigger] chars@[j]),
        decreases b - e,
    {
        e = e + 1;
    }
    e
}

/// The bounds of the two words of `chars[a..b]`, when it has exactly two.
fn two_words(chars: &Vec<char>, a: usize, b: usize) -> (r: Option<((usize, usize), (usize, usize))>)
    requires
        a <= b <= chars@.len(),
    ensures
        (words(chars@.subrange(a as int, b as int)).len() == 2) == (r is Some),
        r matches Some((p, q)) ==> {
            &&& p.0 <= p.1 <= q.0 <= q.1 <= chars@.len()
            &&& words(chars@.subrange(a as int, b as int))[0] == chars@.subrange(p.0 as int, p.1 as int)
            &&& words(chars@.subrange(a as int, b as int))[1] == chars@.subrange(q.0 as int, q.1 as int)
        },
{
    let ghost s = chars@;
    let s1 = skip_space(chars, a, b);
    proof {
        lemma_words_skip_space(s, a as int, s1 as int, b as int);
    }
    if s1 == b {
        assert(s.subrange(b as int, b as int).len() == 0);
        return None;
    }
    let e1 = skip_word(chars, s1, b);
    let s2 = skip_space(chars, e1, b);
    proof {
        lemma_words_word(s, s1 as int, e1 as int, b as int);
        lemma_words_skip_space(s, e1 as int, s2 as int, b as int);
    }
    if s2 == b {
        assert(s.subrange(b as int, b as int).len() == 0);
        return None;
    }
    let e2 = skip_word(chars, s2, b);
    let s3 = skip_space(chars, e2, b);
    proof {
        lemma_words_word(s, s2 as int, e2 as int, b as int);
        lemma_words_skip_space(s, e2 as int, s3 as int, b as int);
    }
    if s3 < b {
        proof {
            lemma_words_nonempty(s, s3 as int, b as int);
        }
        return None;
    }
    assert(s.subrange(b as int, b as int).len() == 0);
    Some(((s1, e1), (s2, e2)))
}

// ---------------------------------------------------------------------------
// The table of pins
// ---------------------------------------------------------------------------

/// The table that pinning each `(host, fingerprint)` of `s` in turn makes:
/// a later pin replaces an earlier one for the same host.
pub open spec fn pin_map(s: Seq<(Seq<char>, Seq<char>)>) -> Map<Seq<char>, Seq<char>>
    decreases s.len(),
{
    if s.len() == 0 {
        Map::empty()
    } else {
        pin_map(s.drop_last()).insert(s.last().0, s.last().1)
    }
}

/// The pins that the lines of a known-hosts text list, in order: one for
/// each line of exactly two words, host then fingerprint. Other lines are
/// skipped.
pub open spec fn line_pins(lines: Seq<Seq<char>>) -> Seq<(Seq<char>, Seq<char>)>
    decreases lines.len(),
{
    if lines.len() == 0 {
        Seq::empty()
    } else {
        let r = line_pins(lines.drop_last());
        let w = words(lines.last());
        if w.len() == 2 {
            r.push((w[0], w[1]))
        } else {
            r
        }
    }
}

/// The pins a known-hosts text lists, line by line.
pub open spec fn file_pins(text: Seq<char>) -> Seq<(Seq<char>, Seq<char>)> {
    line_pins(split_on(text, '\n'))
}

/// No two pins name the same host.
pub open spec fn hosts_unique(s: Seq<(Seq<char>, Seq<char>)>) -> bool {
    forall|i: int, j: int| 0 <= i < s.len() && 0 <= j < s.len() && i != j ==> (#[trigger] s[i]).0 != (#[trigger] s[j]).0
}

proof fn lemma_pin_map_unique(s: Seq<(Seq<char>, Seq<char>)>)
    requires
        hosts_unique(s),
    ensures
        forall|h: Seq<char>| #[trigger] pin_map(s).contains_key(h) <==> exists|i: int| 0 <= i < s.len() && s[i].0 == h,
        forall|i: int| 0 <= i < s.len() ==> #[trigger] pin_map(s)[s[i].0] == s[i].1,
    decreases s.len(),
{
    if s.len() > 0 {
        let t = s.drop_last();
        assert(hosts_unique(t)) by {
            assert forall|i: int, j: int| 0 <= i < t.len() && 0 <= j < t.len() && i != j implies (#[trigger] t[i]).0 != (#[trigger] t[j]).0 by {
                assert(t[i] == s[i] && t[j] == s[j]);
            }
        }
        lemma_pin_map_unique(t);
        let last = s.last();
        assert(pin_map(s) == pin_map(t).insert(last.0, last.1));
        assert forall|h: Seq<char>| #[trigger] pin_map(s).contains_key(h) <==> exists|i: int| 0 <= i < s.len() && s[i].0 == h by {
            if pin_map(s).contains_key(h) {
                if h == last.0 {
                    assert(s[s.len() - 1].0 == h);
                } else {
                    assert(pin_map(t).contains_key(h));
                    let i = choose|i: int| 0 <= i < t.len() && t[i].0 == h;
                    assert(s[i] == t[i]);
                    assert(s[i].0 == h);
                }
            }
            if exists|i: int| 0 <= i < s.len() && s[i].0 == h {
                let i = choose|i: int| 0 <= i < s.len() && s[i].0 == h;
                if i < s.len() - 1 {
                    assert(t[i] == s[i]);
                    assert(t[i].0 == h);
                    assert(pin_map(t).contains_key(h));
                }
            }
        }
        assert forall|i: int| 0 <= i < s.len() implies #[trigger] pin_map(s)[s[i].0] == s[i].1 by {
            if i < s.len() - 1 {
                assert(t[i] == s[i]);
                assert(s[i].0 != s[s.len() - 1].0);
                assert(pin_map(t)[t[i].0] == t[i].1);
            }
        }
    }
}

/// Pins held as strings, taken as text.
pub open spec fn pin_texts(v: Seq<(String, String)>) -> Seq<(Seq<char>, Seq<char>)> {
    v.map_values(|e: (String, String)| (e.0@, e.1@))
}

// ---------------------------------------------------------------------------
// The text of the file
// ---------------------------------------------------------------------------

/// `a` comes before `b` in the order of their code points, a proper prefix
/// first. For UTF-8 strings this is the order of their bytes, which is how
/// `String` compares.
pub open spec fn text_lt(a: Seq<char>, b: Seq<char>) -> bool
    decreases a.len(),
{
    if a.len() == 0 {
        b.len() > 0
    } else if b.len() == 0 {
        false
    } else if a[0] != b[0] {
        a[0] < b[0]
    } else {
        text_lt(a.drop_first(), b.drop_first())
    }
}

proof fn lemma_text_lt_asym(a: Seq<char>, b: Seq<char>)
    requires
        text_lt(a, b),
    ensures
        !text_lt(b, a),
    decreases a.len(),
{
    if a.len() > 0 && b.len() > 0 && a[0] == b[0] {
        lemma_text_lt_asym(a.drop_first(), b.drop_first());
    }
}

proof fn lemma_text_lt_trans(a: Seq<char>, b: Seq<char>, c: Seq<char>)
    requires
        text_lt(a, b),
        text_lt(b, c),
    ensures
        text_lt(a, c),
    decreases a.len(),
{
    if a.len() > 0 && b.len() > 0 && c.len() > 0 && a[0] == b[0] && b[0] == c[0] {
        lemma_text_lt_trans(a.drop_first(), b.drop_first(), c.drop_first());
    }
}

/// The line of the known-hosts file that holds a pin.
pub open spec fn pin_line(p: (Seq<char>, Seq<char>)) -> Seq<char> {
    p.0 + seq![' '] + p.1
}

/// The pins come in the order of their lines.
pub open spec fn lines_sorted(s: Seq<(Seq<char>, Seq<char>)>) -> bool {
    forall|i: int, j: int| 0 <= i < j < s.len() ==> !text_lt(pin_line(#[trigger] s[j]), pin_line(#[trigger] s[i]))
}

/// The lines of the pins `s`, in that order, each ending in a line feed.
pub open spec fn pin_lines(s: Seq<(Seq<char>, Seq<char>)>) -> Seq<char>
    decreases s.len(),
{
    if s.len() == 0 {
        Seq::empty()
    } else {
        pin_lines(s.drop_last()) + pin_line(s.last()) + seq!['\n']
    }
}

/// The known-hosts text of the pins `s`, in that order: their lines, or a
/// lone line feed when there is none.
pub open spec fn known_hosts_text(s: Seq<(Seq<char>, Seq<char>)>) -> Seq<char> {
    if s.len() == 0 {
        seq!['\n']
    } else {
        pin_lines(s)
    }
}

/// `text` is the known-hosts text of the table `m`: one line for each of
/// its hosts, in sorted order.
pub open spec fn renders(m: Map<Seq<char>, Seq<char>>, text: Seq<char>) -> bool {
    exists|ls: Seq<(Seq<char>, Seq<char>)>| {
        &&& hosts_unique(ls)
        &&& pin_map(ls) == m
        &&& lines_sorted(ls)
        &&& text == known_hosts_text(ls)
    }
}

/// A non-empty run of characters none of which is white space.
pub open spec fn plain_word(w: Seq<char>) -> bool {
    w.len() > 0 && forall|i: int| 0 <= i < w.len() ==> !is_white_space(#[trigger] w[i])
}

fn text_less(a: &Vec<char>, b: &Vec<char>) -> (r: bool)
    ensures
        r == text_lt(a@, b@),
{
    let mut i: usize = 0;
    proof {
        assert(a@.skip(0) =~= a@);
        assert(b@.skip(0) =~= b@);
    }
    while i < a.len() && i < b.len() && a[i] == b[i]
        invariant
            i <= a@.len(),
            i <= b@.len(),
            text_lt(a@, b@) == text_lt(a@.skip(i as int), b@.skip(i as int)),
        decreases a@.len() - i,
    {
        proof {
            assert(a@.skip(i as int).drop_first() =~= a@.skip(i + 1));
            assert(b@.skip(i as int).drop_first() =~= b@.skip(i + 1));
            assert(a@.skip(i as int)[0] == a@[i as int]);
            assert(b@.skip(i as int)[0] == b@[i as int]);
        }
        i = i + 1;
    }
    proof {
        if i < a@.len() && i < b@.len() {
            assert(a@.skip(i as int)[0] == a@[i as int]);
            assert(b@.skip(i as int)[0] == b@[i as int]);
        }
    }
    if i == a.len() {
        i < b.len()
    } else if i == b.len() {
        false
    } else {
        a[i] < b[i]
    }
}

fn line_chars(e: &(String, String)) -> (r: Vec<char>)
    ensures
        r@ == pin_line((e.0@, e.1@)),
{
    let mut r = chars_of(e.0.as_str());
    r.push(' ');
    let f = chars_of(e.1.as_str());
    let mut i: usize = 0;
    let ghost r0 = r@;
    while i < f.len()
        invariant
            i <= f@.len(),
            r@ == r0 + f@.take(i as int),
        decreases f@.len() - i,
    {
        r.push(f[i]);
        i = i + 1;
        proof {
            assert(f@.take(i as int) =~= f@.take(i - 1).push(f@[i - 1]));
        }
    }
    proof {
        assert(f@.take(f@.len() as int) =~= f@);
        assert(r@ =~= pin_line((e.0@, e.1@)));
    }
    r
}

/// The pinned fingerprints, one per host.
pub struct KnownHosts {
    entries: Vec<(String, String)>,
}

impl KnownHosts {
    /// The pins as text, in the order they are held.
    pub closed spec fn pins(&self) -> Seq<(Seq<char>, Seq<char>)> {
        pin_texts(self.entries@)
    }

    /// Each host is held once.
    pub closed spec fn wf(&self) -> bool {
        hosts_unique(self.pins())
    }
}

impl View for KnownHosts {
    type V = Map<Seq<char>, Seq<char>>;

    /// The fingerprint pinned for each host.
    closed spec fn view(&self) -> Map<Seq<char>, Seq<char>> {
        pin_map(self.pins())
    }
}

impl KnownHosts {
    /// A table with no host.
    pub fn new() -> (r: Self)
        ensures
            r.wf(),
            r@ == Map::<Seq<char>, Seq<char>>::empty(),
    {
        let r = KnownHosts { entries: Vec::new() };
        proof {
            assert(r.pins() =~= Seq::<(Seq<char>, Seq<char>)>::empty());
        }
        r
    }

    /// Number of hosts pinned.
    pub fn len(&self) -> (n: usize)
        requires
            self.wf(),
        ensures
            n == self@.len(),
    {
        proof {
            self.lemma_len();
        }
        self.entries.len()
    }

    proof fn lemma_len(&self)
        requires
            self.wf(),
        ensures
            self@.len() == self.entries@.len(),
            self@.dom().finite(),
    {
        lemma_pin_len(self.pins());
    }

    /// Position of the host's pin, if it has one.
    fn position(&self, host: &str) -> (r: Option<usize>)
        requires
            self.wf(),
        ensures
            r matches Some(j) ==> j < self.entries@.len() && self.pins()[j as int].0 == host@,
            r is None ==> forall|j: int| 0 <= j < self.pins().len() ==> (#[trigger] self.pins()[j]).0 != host@,
    {
        let mut j: usize = 0;
        while j < self.entries.len()
            invariant
                j <= self.entries@.len(),
                forall|k: int| 0 <= k < j ==> (#[trigger] self.pins()[k]).0 != host@,
            decreases self.entries@.len() - j,
        {
            if same_text(self.entries[j].0.as_str(), host) {
                return Some(j);
            }
            j = j + 1;
        }
        None
    }

    /// The fingerprint pinned for `host`, if any.
    pub fn get(&self, host: &str) -> (r: Option<&String>)
        requires
            self.wf(),
        ensures
            r is Some == self@.contains_key(host@),
            r matches Some(f) ==> f@ == self@[host@],
    {
        proof {
            lemma_pin_map_unique(self.pins());
        }
        match self.position(host) {
            Some(j) => {
                proof {
                    assert(self.pins()[j as int].1 == self.entries@[j as int].1@);
                }
                Some(&self.entries[j].1)
            },
            None => None,
        }
    }

    /// Pins `fingerprint` for `host`, replacing an earlier pin.
    pub fn insert(&mut self, host: String, fingerprint: String)
        requires
            old(self).wf(),
        ensures
            final(self).wf(),
            final(self)@ == old(self)@.insert(host@, fingerprint@),
    {
        let ghost s = self.pins();
        let ghost h = host@;
        let ghost f = fingerprint@;
        proof {
            lemma_pin_map_unique(s);
        }
        match self.position(host.as_str()) {
            Some(j) => {
                self.entries.set(j, (host, fingerprint));
                let ghost t = self.pins();
                proof {
                    assert(t =~= s.update(j as int, (h, f)));
                    assert(hosts_unique(t)) by {
                        assert forall|a: int, b: int| 0 <= a < t.len() && 0 <= b < t.len() && a != b implies (#[trigger] t[a]).0 != (#[trigger] t[b]).0 by {
                            assert(t[a].0 == s[a].0 && t[b].0 == s[b].0);
                        }
                    }
                    lemma_pin_map_unique(t);
                    assert(pin_map(t) =~= pin_map(s).insert(h, f)) by {
                        assert forall|k: Seq<char>| #[trigger] pin_map(t).contains_key(k) <==> pin_map(s).insert(h, f).contains_key(k) by {
                            if pin_map(t).contains_key(k) {
                                let i = choose|i: int| 0 <= i < t.len() && t[i].0 == k;
                                assert(s[i].0 == k);
                            }
                            if pin_map(s).contains_key(k) {
                                let i = choose|i: int| 0 <= i < s.len() && s[i].0 == k;
                                assert(t[i].0 == k);
                            }
                            if k == h {
                                assert(t[j as int].0 == h);
                            }
                        }
                        assert forall|k: Seq<char>| pin_map(t).contains_key(k) implies #[trigger] pin_map(t)[k] == pin_map(s).insert(h, f)[k] by {
                            let i = choose|i: int| 0 <= i < t.len() && t[i].0 == k;
                            assert(pin_map(t)[t[i].0] == t[i].1);
                            if i != j {
                                assert(pin_map(s)[s[i].0] == s[i].1);
                            }
                        }
                    }
                }
            },
            None => {
                self.entries.push((host, fingerprint));
                let ghost t = self.pins();
                proof {
                    assert(t =~= s.push((h, f)));
                    assert(t.drop_last() =~= s);
                    assert(hosts_unique(t)) by {
                        assert forall|a: int, b: int| 0 <= a < t.len() && 0 <= b < t.len() && a != b implies (#[trigger] t[a]).0 != (#[trigger] t[b]).0 by {
                            if a < s.len() && b < s.len() {
                                assert(t[a] == s[a] && t[b] == s[b]);
                            } else if a < s.len() {
                                assert(t[a] == s[a]);
                            } else {
                                assert(t[b] == s[b]);
                            }
                        }
                    }
                }
            },
        }
    }

    /// Reads a known-hosts text: every line of exactly two words pins its
    /// second word for its first, a later line replacing an earlier one for
    /// the same host; other lines are skipped.
    pub fn parse(content: &str) -> (r: KnownHosts)
        ensures
            r.wf(),
            r@ == pin_map(file_pins(content@)),
    {
        let chars = chars_of(content);
        let lines = field_bounds(&chars, '\n');
        let ghost s = chars@;
        let ghost ls = split_on(s, '\n');
        let mut table = KnownHosts::new();
        let mut k: usize = 0;
        while k < lines.len()
            invariant
                k <= lines@.len(),
                s == chars@,
                s == content@,
                ls == split_on(s, '\n'),
                forall|j: int| 0 <= j < lines@.len() ==> (#[trigger] lines@[j]).0 <= lines@[j].1 <= s.len(),
                lines@.map_values(|p: (usize, usize)| s.subrange(p.0 as int, p.1 as int)) == ls,
                table.wf(),
                table@ == pin_map(line_pins(ls.take(k as int))),
            decreases lines@.len() - k,
        {
            let (a, b) = lines[k];
            proof {
                assert(ls[k as int] == s.subrange(a as int, b as int));
                assert(ls.take(k + 1).drop_last() =~= ls.take(k as int));
                assert(ls.take(k + 1).last() == ls[k as int]);
            }
            match two_words(&chars, a, b) {
                Some((p, q)) => {
                    let host = String::from_str(content.substring_char(p.0, p.1));
                    let fp = String::from_str(content.substring_char(q.0, q.1));
                    proof {
                        let w = words(ls[k as int]);
                        assert(line_pins(ls.take(k + 1)) == line_pins(ls.take(k as int)).push((w[0], w[1])));
                        let t = line_pins(ls.take(k + 1));
                        assert(t.drop_last() =~= line_pins(ls.take(k as int)));
                    }
                    table.insert(host, fp);
                },
                None => {},
            }
            k = k + 1;
        }
        proof {
            assert(ls.take(lines@.len() as int) =~= ls);
        }
        table
    }

    /// Checks the certificate `host` showed against the pin for `host`. A
    /// host seen for the first time has the certificate's fingerprint
    /// pinned; for a known host the table stays as it is.
    pub fn enforce(&mut self, host: &str, cert_der: &[u8]) -> (r: HostKeyCheck)
        requires
            old(self).wf(),
        ensures
            final(self).wf(),
            old(self)@.contains_key(host@) ==> {
                &&& final(self)@ == old(self)@
                &&& r == (if old(self)@[host@] == hex_of(blake3_digest(cert_der@)) {
                    HostKeyCheck::Trusted
                } else {
                    HostKeyCheck::Mismatch
                })
            },
            !old(self)@.contains_key(host@) ==> {
                &&& r == HostKeyCheck::PinNew
                &&& final(self)@ == old(self)@.insert(host@, hex_of(blake3_digest(cert_der@)))
            },
    {
        let fp = cert_fingerprint(cert_der);
        let decision = match self.get(host) {
            Some(pinned) => check_known_host(Some(pinned.as_str()), fp.as_str()),
            None => HostKeyCheck::PinNew,
        };
        match decision {
            HostKeyCheck::PinNew => {
                self.insert(String::from_str(host), fp);
            },
            _ => {},
        }
        decision
    }

    /// The known-hosts text of the table: one `host fingerprint` line for
    /// each host, in sorted order, each ending in a line feed (a lone line
    /// feed for an empty table).
    pub fn render(&self) -> (r: String)
        requires
            self.wf(),
        ensures
            renders(self@, r@),
    {
        broadcast use vstd::seq_lib::group_to_multiset_ensures;
        let ghost s = self.pins();
        let mut sorted: Vec<(String, String)> = Vec::new();
        let mut k: usize = 0;
        proof {
            assert(s.take(0) =~= Seq::<(Seq<char>, Seq<char>)>::empty());
            assert(pin_texts(sorted@) =~= Seq::<(Seq<char>, Seq<char>)>::empty());
        }
        while k < self.entries.len()
            invariant
                k <= self.entries@.len(),
                s == self.pins(),
                pin_texts(sorted@).to_multiset() == s.take(k as int).to_multiset(),
                lines_sorted(pin_texts(sorted@)),
            decreases self.entries@.len() - k,
        {
            let e = (self.entries[k].0.clone(), self.entries[k].1.clone());
            let ghost x = (e.0@, e.1@);
            proof {
                assert(x == s[k as int]);
            }
            let line = line_chars(&e);
            let mut p: usize = 0;
            while p < sorted.len() && !text_less(&line, &line_chars(&sorted[p]))
                invariant
                    p <= sorted@.len(),
                    line@ == pin_line(x),
                    forall|i: int| 0 <= i < p ==> !text_lt(pin_line(x), pin_line(#[trigger] pin_texts(sorted@)[i])),
                decreases sorted@.len() - p,
            {
                proof {
                    assert(pin_texts(sorted@)[p as int] == (sorted@[p as int].0@, sorted@[p as int].1@));
                }
                p = p + 1;
            }
            let ghost old_t = pin_texts(sorted@);
            proof {
                assert(forall|i: int| 0 <= i < p ==> !text_lt(pin_line(x), pin_line(#[trigger] old_t[i])));
                if p < sorted@.len() {
                    assert(old_t[p as int] == (sorted@[p as int].0@, sorted@[p as int].1@));
                    assert(text_lt(pin_line(x), pin_line(old_t[p as int])));
                }
            }
            sorted.insert(p, e);
            proof {
                let t = pin_texts(sorted@);
                assert(t =~= old_t.insert(p as int, x));
                vstd::seq_lib::to_multiset_insert(old_t, p as int, x);
                assert(s.take(k + 1) =~= s.take(k as int).push(x));
                vstd::seq_lib::to_multiset_build(s.take(k as int), x);
                assert(lines_sorted(t)) by {
                    assert forall|i: int, j: int| 0 <= i < j < t.len() implies !text_lt(pin_line(#[trigger] t[j]), pin_line(#[trigger] t[i])) by {
                        if j < p {
                            assert(t[i] == old_t[i] && t[j] == old_t[j]);
                        } else if j == p {
                            assert(t[i] == old_t[i]);
                            assert(t[j] == x);
                        } else if i > p {
                            assert(t[i] == old_t[i - 1] && t[j] == old_t[j - 1]);
                        } else if i == p {
                            assert(t[i] == x);
                            assert(t[j] == old_t[j - 1]);
                            let y = pin_line(old_t[j - 1]);
                            let z = pin_line(old_t[p as int]);
                            if text_lt(y, pin_line(x)) {
                                lemma_text_lt_trans(y, pin_line(x), z);
                                if j - 1 > p {
                                    assert(!text_lt(pin_line(old_t[j - 1]), pin_line(old_t[p as int])));
                                } else {
                                    lemma_text_lt_asym(y, z);
                                }
                            }
                        } else {
                            assert(t[i] == old_t[i] && t[j] == old_t[j - 1]);
                            assert(!text_lt(pin_line(old_t[j - 1]), pin_line(old_t[i])));
                        }
                    }
                }
            }
            k = k + 1;
        }
        proof {
            assert(s.take(self.entries@.len() as int) =~= s);
            lemma_permuted_pins(s, pin_texts(sorted@));
        }
        let ghost ls = pin_texts(sorted@);
        let mut out = String::new();
        if sorted.len() == 0 {
            out.append("\n");
            proof {
                reveal_strlit("\n");
                assert(out@ =~= known_hosts_text(ls));
            }
            return out;
        }
        let mut i: usize = 0;
        proof {
            assert(ls.take(0) =~= Seq::<(Seq<char>, Seq<char>)>::empty());
        }
        while i < sorted.len()
            invariant
                i <= sorted@.len(),
                ls == pin_texts(sorted@),
                out@ == pin_lines(ls.take(i as int)),
            decreases sorted@.len() - i,
        {
            out.append(sorted[i].0.as_str());
            out.append(" ");
            out.append(sorted[i].1.as_str());
            out.append("\n");
            proof {
                reveal_strlit(" ");
                reveal_strlit("\n");
                let t = ls.take(i + 1);
                assert(t.drop_last() =~= ls.take(i as int));
                assert(t.last() == (sorted@[i as int].0@, sorted@[i as int].1@));
                assert(out@ =~= pin_lines(t));
            }
            i = i + 1;
        }
        proof {
            assert(ls.take(sorted@.len() as int) =~= ls);
        }
        out
    }
}

proof fn lemma_pin_len(s: Seq<(Seq<char>, Seq<char>)>)
    requires
        hosts_unique(s),
    ensures
        pin_map(s).len() == s.len(),
        pin_map(s).dom().finite(),
    decreases s.len(),
{
    if s.len() > 0 {
        let t = s.drop_last();
        assert(hosts_unique(t)) by {
            assert forall|i: int, j: int| 0 <= i < t.len() && 0 <= j < t.len() && i != j implies (#[trigger] t[i]).0 != (#[trigger] t[j]).0 by {
                assert(t[i] == s[i] && t[j] == s[j]);
            }
        }
        lemma_pin_len(t);
        lemma_pin_map_unique(t);
        if pin_map(t).contains_key(s.last().0) {
            let i = choose|i: int| 0 <= i < t.len() && t[i].0 == s.last().0;
            assert(t[i] == s[i]);
        }
    }
}

/// A list of pins with no host twice, and any reordering of it, make the
/// same table.
proof fn lemma_permuted_pins(a: Seq<(Seq<char>, Seq<char>)>, b: Seq<(Seq<char>, Seq<char>)>)
    requires
        hosts_unique(a),
        a.to_multiset() == b.to_multiset(),
    ensures
        hosts_unique(b),
        pin_map(b) == pin_map(a),
{
    broadcast use vstd::seq_lib::group_to_multiset_ensures;
    assert forall|x: (Seq<char>, Seq<char>)| b.contains(x) <==> a.contains(x) by {
        vstd::seq_lib::to_multiset_contains(a, x);
        vstd::seq_lib::to_multiset_contains(b, x);
    }
    assert(hosts_unique(b)) by {
        assert forall|i: int, j: int| 0 <= i < b.len() && 0 <= j < b.len() && i != j implies (#[trigger] b[i]).0 != (#[trigger] b[j]).0 by {
            if b[i].0 == b[j].0 {
                assert(b.contains(b[i]));
                assert(b.contains(b[j]));
                let ia = choose|k: int| 0 <= k < a.len() && a[k] == b[i];
                let ja = choose|k: int| 0 <= k < a.len() && a[k] == b[j];
                assert(ia == ja);
                let x = b[i];
                let bi = b.remove(i);
                let jj = if j < i { j } else { j - 1 };
                assert(bi[jj] == x);
                assert(bi.contains(x));
                assert(bi.to_multiset().count(x) > 0);
                assert(b.to_multiset().count(x) >= 2);
                let ai = a.remove(ia);
                assert(ai.to_multiset().count(x) > 0);
                assert(ai.contains(x));
                let m = choose|k: int| 0 <= k < ai.len() && ai[k] == x;
                let m2 = if m < ia { m } else { m + 1 };
                assert(a[m2] == x);
                assert(m2 != ia);
                assert(a[m2].0 == a[ia].0);
            }
        }
    }
    lemma_pin_map_unique(a);
    lemma_pin_map_unique(b);
    assert forall|h: Seq<char>| #[trigger] pin_map(b).contains_key(h) <==> pin_map(a).contains_key(h) by {
        if pin_map(b).contains_key(h) {
            let i = choose|i: int| 0 <= i < b.len() && b[i].0 == h;
            assert(b.contains(b[i]));
            let k = choose|k: int| 0 <= k < a.len() && a[k] == b[i];
            assert(a[k].0 == h);
        }
        if pin_map(a).contains_key(h) {
            let i = choose|i: int| 0 <= i < a.len() && a[i].0 == h;
            assert(a.contains(a[i]));
            let k = choose|k: int| 0 <= k < b.len() && b[k] == a[i];
            assert(b[k].0 == h);
        }
    }
    assert forall|h: Seq<char>| pin_map(b).contains_key(h) implies #[trigger] pin_map(b)[h] == pin_map(a)[h] by {
        let i = choose|i: int| 0 <= i < b.len() && b[i].0 == h;
        assert(b.contains(b[i]));
        let k = choose|k: int| 0 <= k < a.len() && a[k] == b[i];
        assert(pin_map(b)[b[i].0] == b[i].1);
        assert(pin_map(a)[a[k].0] == a[k].1);
    }
    assert(pin_map(b) =~= pin_map(a));
}

proof fn lemma_split_append(u: Seq<char>, w: Seq<char>, sep: char)
    requires
        forall|i: int| 0 <= i < w.len() ==> #[trigger] w[i] != sep,
    ensures
        split_on(u + w, sep) == split_on(u, sep).update(
            split_on(u, sep).len() - 1,
            split_on(u, sep).last() + w,
        ),
    decreases w.len(),
{
    lemma_split_nonempty(u, sep);
    if w.len() == 0 {
        assert(u + w =~= u);
        assert(split_on(u, sep).last() + w =~= split_on(u, sep).last());
        assert(split_on(u, sep).update(split_on(u, sep).len() - 1, split_on(u, sep).last()) =~= split_on(u, sep));
    } else {
        let v = w.drop_last();
        assert forall|i: int| 0 <= i < v.len() implies #[trigger] v[i] != sep by {
            assert(v[i] == w[i]);
        }
        lemma_split_append(u, v, sep);
        assert((u + w).drop_last() =~= u + v);
        assert((u + w).last() == w.last());
        assert(w.last() != sep);
        let r = split_on(u, sep);
        let r2 = split_on(u + v, sep);
        assert(r2 == r.update(r.len() - 1, r.last() + v));
        assert(split_on(u + w, sep) == r2.update(r2.len() - 1, r2.last().push(w.last())));
        assert(r2.len() == r.len());
        assert(r2.last() == r.last() + v);
        assert((r.last() + v).push(w.last()) =~= r.last() + w);
        assert(split_on(u + w, sep) =~= r.update(r.len() - 1, r.last() + w));
    }
}

/// The lines of `pin_lines(ls)` are those of the pins, then an empty one.
proof fn lemma_split_pin_lines(ls: Seq<(Seq<char>, Seq<char>)>)
    requires
        forall|i: int| 0 <= i < ls.len() ==> plain_word((#[trigger] ls[i]).0) && plain_word(ls[i].1),
    ensures
        split_on(pin_lines(ls), '\n') == ls.map_values(|p: (Seq<char>, Seq<char>)| pin_line(p)).push(Seq::empty()),
    decreases ls.len(),
{
    if ls.len() == 0 {
        assert(split_on(pin_lines(ls), '\n') =~= seq![Seq::<char>::empty()]);
        assert(ls.map_values(|p: (Seq<char>, Seq<char>)| pin_line(p)).push(Seq::empty()) =~= seq![Seq::<char>::empty()]);
    } else {
        let t = ls.drop_last();
        assert forall|i: int| 0 <= i < t.len() implies plain_word((#[trigger] t[i]).0) && plain_word(t[i].1) by {
            assert(t[i] == ls[i]);
        }
        lemma_split_pin_lines(t);
        let p = ls.last();
        assert(plain_word(ls[ls.len() - 1].0) && plain_word(ls[ls.len() - 1].1));
        let line = pin_line(p);
        assert forall|i: int| 0 <= i < line.len() implies #[trigger] line[i] != '\n' by {
            if i < p.0.len() {
                assert(line[i] == p.0[i]);
                assert(!is_white_space(p.0[i]));
            } else if i == p.0.len() {
                assert(line[i] == ' ');
            } else {
                assert(line[i] == p.1[i - p.0.len() - 1]);
                assert(!is_white_space(p.1[i - p.0.len() - 1]));
            }
        }
        let u = pin_lines(t);
        lemma_split_append(u, line, '\n');
        let lt = t.map_values(|q: (Seq<char>, Seq<char>)| pin_line(q));
        assert(split_on(u + line, '\n') =~= lt.push(line)) by {
            assert(Seq::<char>::empty() + line =~= line);
        }
        assert(pin_lines(ls) == (u + line).push('\n')) by {
            assert(u + line + seq!['\n'] =~= (u + line).push('\n'));
        }
        assert((u + line).push('\n').drop_last() =~= u + line);
        assert(ls.map_values(|q: (Seq<char>, Seq<char>)| pin_line(q)) =~= lt.push(line));
    }
}

/// The words of a pin's line are its host and its fingerprint.
proof fn lemma_words_of_pin_line(p: (Seq<char>, Seq<char>))
    requires
        plain_word(p.0),
        plain_word(p.1),
    ensures
        words(pin_line(p)) == seq![p.0, p.1],
{
    let s = pin_line(p);
    let e = p.0.len() as int;
    let b = s.len() as int;
    assert forall|j: int| 0 <= j < e implies !is_white_space(#[trigger] s[j]) by {
        assert(s[j] == p.0[j]);
    }
    assert(s[e] == ' ');
    lemma_words_word(s, 0, e, b);
    lemma_words_skip_space(s, e, e + 1, b);
    assert forall|j: int| e + 1 <= j < b implies !is_white_space(#[trigger] s[j]) by {
        assert(s[j] == p.1[j - e - 1]);
    }
    lemma_words_word(s, e + 1, b, b);
    assert(s.subrange(0, b) =~= s);
    assert(s.subrange(0, e) =~= p.0);
    assert(s.subrange(e + 1, b) =~= p.1);
    assert(words(s.subrange(b, b)) =~= Seq::<Seq<char>>::empty()) by {
        assert(s.subrange(b, b).len() == 0);
    }
    assert(words(s) =~= seq![p.0, p.1]);
}

proof fn lemma_line_pins_of_lines(ls: Seq<(Seq<char>, Seq<char>)>)
    requires
        forall|i: int| 0 <= i < ls.len() ==> plain_word((#[trigger] ls[i]).0) && plain_word(ls[i].1),
    ensures
        line_pins(ls.map_values(|p: (Seq<char>, Seq<char>)| pin_line(p))) == ls,
    decreases ls.len(),
{
    if ls.len() > 0 {
        let t = ls.drop_last();
        assert forall|i: int| 0 <= i < t.len() implies plain_word((#[trigger] t[i]).0) && plain_word(t[i].1) by {
            assert(t[i] == ls[i]);
        }
        lemma_line_pins_of_lines(t);
        let lines = ls.map_values(|p: (Seq<char>, Seq<char>)| pin_line(p));
        assert(lines.drop_last() =~= t.map_values(|p: (Seq<char>, Seq<char>)| pin_line(p)));
        assert(plain_word(ls[ls.len() - 1].0) && plain_word(ls[ls.len() - 1].1));
        lemma_words_of_pin_line(ls.last());
        assert(lines.last() == pin_line(ls.last()));
        assert(ls =~= t.push(ls.last()));
    } else {
        assert(ls.map_values(|p: (Seq<char>, Seq<char>)| pin_line(p)) =~= Seq::<Seq<char>>::empty());
    }
}

/// Law: reading back the text rendered for a table gives that table again,
/// when every host and every fingerprint is a non-empty run of characters
/// that are not white space.
pub proof fn law_parse_reads_back_render(m: Map<Seq<char>, Seq<char>>, text: Seq<char>)
    requires
        renders(m, text),
        forall|h: Seq<char>| #[trigger] m.contains_key(h) ==> plain_word(h) && plain_word(m[h]),
    ensures
        pin_map(file_pins(text)) == m,
{
    let ls = choose|ls: Seq<(Seq<char>, Seq<char>)>| {
        &&& hosts_unique(ls)
        &&& pin_map(ls) == m
        &&& lines_sorted(ls)
        &&& text == known_hosts_text(ls)
    };
    lemma_pin_map_unique(ls);
    assert forall|i: int| 0 <= i < ls.len() implies plain_word((#[trigger] ls[i]).0) && plain_word(ls[i].1) by {
        assert(m.contains_key(ls[i].0));
        assert(m[ls[i].0] == ls[i].1);
    }
    if ls.len() == 0 {
        let t1 = seq!['\n'];
        assert(text == t1);
        let e = Seq::<char>::empty();
        assert(t1.last() == '\n');
        assert(t1.drop_last() =~= e);
        assert(split_on(e, '\n') == seq![e]);
        assert(split_on(t1, '\n') == split_on(e, '\n').push(e));
        let two = seq![e].push(e);
        assert(two.drop_last() =~= seq![e]);
        assert(seq![e].drop_last() =~= Seq::<Seq<char>>::empty());
        assert(words(e).len() == 0);
        assert(two.last() == e);
        assert(seq![e].last() == e);
        assert(line_pins(seq![e]) == line_pins(Seq::<Seq<char>>::empty()));
        assert(line_pins(two) == line_pins(seq![e]));
        assert(file_pins(text) =~= Seq::<(Seq<char>, Seq<char>)>::empty());
    } else {
        lemma_split_pin_lines(ls);
        let lines = ls.map_values(|p: (Seq<char>, Seq<char>)| pin_line(p));
        lemma_line_pins_of_lines(ls);
        let all = lines.push(Seq::empty());
        assert(all.drop_last() =~= lines);
        assert(words(Seq::<char>::empty()).len() == 0);
        assert(file_pins(text) == line_pins(all));
        assert(line_pins(all) == line_pins(lines));
    }
}

} // verus!
