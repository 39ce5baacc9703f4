//! The header collection: an ordered store of name/value pairs, keyed
//! case-insensitively by ASCII-lowercased name while the original casing is
//! kept for serialization. Also the `Cache-Control` directive parser.

use vstd::prelude::*;

verus! {

use crate::text::{
    chars_of, string_of, to_lower, lower, chars_eq, subvec, has_prefix, has_prefix_exec, find_char,
    find_char_exec, trim, trim_exec, parse_u64, parse_u64_exec,
};

/// One stored header: the name as most recently written, and its value.
pub struct HeaderEntryView {
    pub name: Seq<char>,
    pub value: Seq<char>,
}

#[derive(Debug)]
struct HeaderEntry {
    name: String,
    value: String,
}

impl View for HeaderEntry {
    type V = HeaderEntryView;

    closed spec fn view(&self) -> HeaderEntryView {
        HeaderEntryView { name: self.name@, value: self.value@ }
    }
}

/// An ordered name/value store with case-insensitive keys.
#[derive(Debug)]
pub struct Headers {
    entries: Vec<HeaderEntry>,
}

impl View for Headers {
    type V = Seq<HeaderEntryView>;

    closed spec fn view(&self) -> Seq<HeaderEntryView> {
        self.entries@.map_values(|e: HeaderEntry| e@)
    }
}

/// Index of the entry whose lowercased name is `key` (itself lowercased),
/// or -1 when absent.
pub open spec fn index_of_key(s: Seq<HeaderEntryView>, key: Seq<char>) -> int
    decreases s.len(),
{
    if s.len() == 0 {
        -1
    } else if lower(s[0].name) == key {
        0
    } else {
        let r = index_of_key(s.subrange(1, s.len() as int), key);
        if r < 0 {
            -1
        } else {
            r + 1
        }
    }
}

pub proof fn lemma_index_of_key(s: Seq<HeaderEntryView>, key: Seq<char>)
    ensures
        index_of_key(s, key) == -1 || (0 <= index_of_key(s, key) < s.len()),
        index_of_key(s, key) >= 0 ==> lower(s[index_of_key(s, key)].name) == key,
        forall|i: int| 0 <= i < s.len() && lower(#[trigger] s[i].name) == key ==> index_of_key(
            s,
            key,
        ) >= 0,
        forall|i: int| 0 <= i < index_of_key(s, key) ==> lower(#[trigger] s[i].name) != key,
    decreases s.len(),
{
    if s.len() > 0 && lower(s[0].name) != key {
        let tail = s.subrange(1, s.len() as int);
        lemma_index_of_key(tail, key);
        assert forall|i: int|
            0 <= i < s.len() && lower(#[trigger] s[i].name) == key implies index_of_key(s, key)
            >= 0 by {
            if i > 0 {
                assert(tail[i - 1] == s[i]);
            }
        }
        assert forall|i: int| 0 <= i < index_of_key(s, key) implies lower(
            #[trigger] s[i].name,
        ) != key by {
            if i > 0 {
                assert(s[i] == tail[i - 1]);
            }
        }
    }
}

/// The value stored in `s` under the lowercased key `key`.
pub open spec fn lookup(s: Seq<HeaderEntryView>, key: Seq<char>) -> Option<Seq<char>> {
    let i = index_of_key(s, key);
    if i >= 0 {
        Some(s[i].value)
    } else {
        None
    }
}

/// The effect of storing one header: replace the case-insensitive match,
/// or append.
pub open spec fn spec_set(s: Seq<HeaderEntryView>, name: Seq<char>, value: Seq<char>) -> Seq<
    HeaderEntryView,
> {
    let i = index_of_key(s, lower(name));
    let e = HeaderEntryView { name, value };
    if i >= 0 {
        s.update(i, e)
    } else {
        s.push(e)
    }
}

impl Headers {
    /// Keys are unique: no two entries share a lowercased name.
    pub open spec fn wf(&self) -> bool {
        forall|i: int, j: int|
            0 <= i < j < self@.len() ==> lower(#[trigger] self@[i].name) != lower(
                #[trigger] self@[j].name,
            )
    }

    /// The value stored under `name`, looked up case-insensitively.
    pub open spec fn spec_get(&self, name: Seq<char>) -> Option<Seq<char>> {
        let i = index_of_key(self@, lower(name));
        if i >= 0 {
            Some(self@[i].value)
        } else {
            None
        }
    }

    /// An empty collection.
    pub fn new() -> (r: Headers)
        ensures
            r@ == Seq::<HeaderEntryView>::empty(),
            r.wf(),
    {
        let r = Headers { entries: Vec::new() };
        proof {
            assert(r@ =~= Seq::<HeaderEntryView>::empty());
        }
        r
    }

    fn find_entry(&self, name: &str) -> (r: Option<usize>)
        ensures
            match r {
                Some(i) => i == index_of_key(self@, lower(name@)) && i < self@.len(),
                None => index_of_key(self@, lower(name@)) == -1,
            },
    {
        proof {
            lemma_index_of_key(self@, lower(name@));
        }
        let key = to_lower(&chars_of(name));
        let mut i: usize = 0;
        while i < self.entries.len()
            invariant
                key@ == lower(name@),
                i <= self@.len(),
                self@.len() == self.entries@.len(),
                forall|j: int| 0 <= j < self@.len() ==> self@[j] == self.entries@[j]@,
                forall|j: int| 0 <= j < i ==> lower(#[trigger] self@[j].name) != key@,
                index_of_key(self@, key@) == -1 || (0 <= index_of_key(self@, key@) < self@.len()
                    && lower(self@[index_of_key(self@, key@)].name) == key@),
                forall|j: int|
                    0 <= j < self@.len() && lower(#[trigger] self@[j].name) == key@
                        ==> index_of_key(self@, key@) >= 0,
                forall|j: int|
                    0 <= j < index_of_key(self@, key@) ==> lower(#[trigger] self@[j].name) != key@,
            decreases self@.len() - i,
        {
            let entry_name = to_lower(&chars_of(self.entries[i].name.as_str()));
            if chars_eq(&entry_name, &key) {
                proof {
                    assert(self@[i as int] == self.entries@[i as int]@);
                    assert(lower(self@[i as int].name) == key@);
                }
                return Some(i);
            }
            proof {
                assert(self@[i as int] == self.entries@[i as int]@);
                assert(lower(self@[i as int].name) != key@);
            }
            i = i + 1;
        }
        None
    }

    /// Stores `value` under `name`, replacing any entry whose name matches
    /// case-insensitively and keeping the new casing; a new name is appended.
    pub fn set(&mut self, name: &str, value: &str)
        requires
            old(self).wf(),
        ensures
            final(self).wf(),
            ({
                let i = index_of_key(old(self)@, lower(name@));
                let e = HeaderEntryView { name: name@, value: value@ };
                if i >= 0 {
                    final(self)@ == old(self)@.update(i, e)
                } else {
                    final(self)@ == old(self)@.push(e)
                }
            }),
            forall|n: Seq<char>|
                #[trigger] final(self).spec_get(n) == if lower(n) == lower(name@) {
                    Some(value@)
                } else {
                    old(self).spec_get(n)
                },
    {
        proof {
            lemma_index_of_key(self@, lower(name@));
        }
        let entry = HeaderEntry { name: name.to_owned(), value: value.to_owned() };
        let found = self.find_entry(name);
        match found {
            Some(i) => {
                self.entries.set(i, entry);
                proof {
                    let e = HeaderEntryView { name: name@, value: value@ };
                    assert(self@ =~= old(self)@.update(i as int, e));
                }
            },
            None => {
                self.entries.push(entry);
                proof {
                    let e = HeaderEntryView { name: name@, value: value@ };
                    assert(self@ =~= old(self)@.push(e));
                }
            },
        }
        proof {
            let e = HeaderEntryView { name: name@, value: value@ };
            let i = index_of_key(old(self)@, lower(name@));
            assert forall|p: int, q: int| 0 <= p < q < self@.len() implies lower(
                #[trigger] self@[p].name,
            ) != lower(#[trigger] self@[q].name) by {
                if i >= 0 {
                    assert(old(self)@[p].name == (if p == i {
                        old(self)@[p].name
                    } else {
                        self@[p].name
                    }));
                } else {
                    if q < old(self)@.len() {
                        assert(self@[p] == old(self)@[p]);
                        assert(self@[q] == old(self)@[q]);
                    } else {
                        assert(self@[q] == e);
                        assert(self@[p] == old(self)@[p]);
                        assert(lower(old(self)@[p].name) != lower(name@));
                    }
                }
            }
            assert forall|n: Seq<char>| #[trigger] final(self).spec_get(n) == (if lower(n)
                == lower(name@) {
                Some(value@)
            } else {
                old(self).spec_get(n)
            }) by {
                lemma_index_of_key(self@, lower(n));
                lemma_index_of_key(old(self)@, lower(n));
                let k = index_of_key(self@, lower(n));
                let ko = index_of_key(old(self)@, lower(n));
                if lower(n) == lower(name@) {
                    if i >= 0 {
                        assert(lower(self@[i].name) == lower(n));
                        assert(k >= 0);
                        assert(forall|m: int|
                            0 <= m < i ==> lower(#[trigger] self@[m].name) == lower(
                                old(self)@[m].name,
                            ));
                        assert(k == i);
                    } else {
                        let last = self@.len() - 1;
                        assert(lower(self@[last].name) == lower(n));
                        assert(k >= 0);
                        assert(k == last);
                    }
                } else {
                    if k >= 0 {
                        assert(self@[k] == old(self)@[k]);
                        assert(ko >= 0);
                        assert(ko <= k);
                        assert(old(self)@[ko] == self@[ko]);
                        assert(k <= ko);
                        assert(self@[k].value == old(self)@[ko].value);
                    } else {
                        if ko >= 0 {
                            assert(lower(old(self)@[ko].name) == lower(n));
                            if i >= 0 {
                                assert(ko != i);
                                assert(self@[ko] == old(self)@[ko]);
                            } else {
                                assert(self@[ko] == old(self)@[ko]);
                            }
                            assert(k >= 0);
                        }
                    }
                }
            }
        }
    }

    /// `set`, in builder form.
    pub fn add(self, name: &str, value: &str) -> (r: Headers)
        requires
            self.wf(),
        ensures
            r.wf(),
            forall|n: Seq<char>|
                #[trigger] r.spec_get(n) == if lower(n) == lower(name@) {
                    Some(value@)
                } else {
                    self.spec_get(n)
                },
            ({
                let i = index_of_key(self@, lower(name@));
                let e = HeaderEntryView { name: name@, value: value@ };
                if i >= 0 {
                    r@ == self@.update(i, e)
                } else {
                    r@ == self@.push(e)
                }
            }),
    {
        let mut s = self;
        s.set(name, value);
        s
    }

    /// The stored value under `name`, looked up case-insensitively.
    pub fn get(&self, name: &str) -> (r: Option<&str>)
        ensures
            match r {
                Some(v) => self.spec_get(name@) == Some(v@),
                None => self.spec_get(name@) == None::<Seq<char>>,
            },
    {
        match self.find_entry(name) {
            Some(i) => Some(self.entries[i].value.as_str()),
            None => None,
        }
    }

    /// Whether some entry's name matches `name` case-insensitively.
    pub fn contains(&self, name: &str) -> (r: bool)
        ensures
            r == (self.spec_get(name@) is Some),
    {
        self.find_entry(name).is_some()
    }
}

// ---------------------------------------------------------------------------
// Wire form
// ---------------------------------------------------------------------------

/// One serialized header line: `Name: value\r\n`.
pub open spec fn wire_line(e: HeaderEntryView) -> Seq<char> {
    e.name + seq![':', ' '] + e.value + seq!['\r', '\n']
}

/// The serialized form of a header sequence, in storage order.
pub open spec fn wire(s: Seq<HeaderEntryView>) -> Seq<char>
    decreases s.len(),
{
    if s.len() == 0 {
        Seq::<char>::empty()
    } else {
        wire(s.subrange(0, s.len() - 1)) + wire_line(s[s.len() - 1])
    }
}

impl Headers {
    /// Serializes every entry as `Name: value\r\n`, in storage order.
    pub fn to_http_string(&self) -> (r: String)
        ensures
            r@ == wire(self@),
    {
        let mut out: Vec<char> = Vec::new();
        let mut i: usize = 0;
        while i < self.entries.len()
            invariant
                i <= self@.len(),
                self@.len() == self.entries@.len(),
                forall|j: int| 0 <= j < self@.len() ==> self@[j] == self.entries@[j]@,
                out@ == wire(self@.subrange(0, i as int)),
            decreases self@.len() - i,
        {
            let mut name = chars_of(self.entries[i].name.as_str());
            out.append(&mut name);
            out.push(':');
            out.push(' ');
            let mut value = chars_of(self.entries[i].value.as_str());
            out.append(&mut value);
            out.push('\r');
            out.push('\n');
            i = i + 1;
            proof {
                let pre = self@.subrange(0, i as int);
                assert(pre.subrange(0, pre.len() - 1) =~= self@.subrange(0, i - 1));
                assert(out@ =~= wire(self@.subrange(0, i - 1)) + wire_line(self@[i - 1]));
            }
        }
        proof {
            assert(self@.subrange(0, self@.len() as int) =~= self@);
        }
        string_of(&out)
    }
}

// ---------------------------------------------------------------------------
// Cache-Control
// ---------------------------------------------------------------------------

/// The cache directives the fetch layer acts on.
#[derive(Debug, PartialEq)]
pub struct CacheControl {
    /// `no-store` was present: the response must not be cached.
    pub no_store: bool,
    /// The last `max-age=N` directive with a readable non-zero `N`.
    pub max_age: Option<u64>,
}

pub open spec fn no_store_chars() -> Seq<char> {
    seq!['n', 'o', '-', 's', 't', 'o', 'r', 'e']
}

pub open spec fn max_age_prefix() -> Seq<char> {
    seq!['m', 'a', 'x', '-', 'a', 'g', 'e', '=']
}

/// `s` split at every `,`, the separators dropped.
pub open spec fn split_commas(s: Seq<char>) -> Seq<Seq<char>>
    decreases s.len(),
{
    let i = find_char(s, ',');
    if !(0 <= i < s.len()) {
        seq![s]
    } else {
        seq![s.subrange(0, i)] + split_commas(s.subrange(i + 1, s.len() as int))
    }
}

/// One directive applied to the accumulated `(no_store, max_age)` state:
/// `no-store` sets the flag; `max-age=N` replaces `max_age` with `N` when it
/// parses and is non-zero, and clears it otherwise; anything else is ignored.
pub open spec fn directive_step(acc: (bool, Option<u64>), directive: Seq<char>) -> (
    bool,
    Option<u64>,
) {
    let d = lower(trim(directive));
    if d == no_store_chars() {
        (true, acc.1)
    } else if has_prefix(d, max_age_prefix()) {
        let n = parse_u64(d.subrange(max_age_prefix().len() as int, d.len() as int));
        (
            acc.0,
            match n {
                Some(v) => if v == 0 {
                    None
                } else {
                    Some(v)
                },
                None => None,
            },
        )
    } else {
        acc
    }
}

pub open spec fn fold_directives(ds: Seq<Seq<char>>, acc: (bool, Option<u64>)) -> (
    bool,
    Option<u64>,
)
    decreases ds.len(),
{
    if ds.len() == 0 {
        acc
    } else {
        fold_directives(ds.subrange(1, ds.len() as int), directive_step(acc, ds[0]))
    }
}

/// What a `Cache-Control` value means: the directives between commas,
/// trimmed and lowercased, folded left over an initially empty state.
pub open spec fn spec_cache_control(s: Seq<char>) -> (bool, Option<u64>) {
    fold_directives(split_commas(s), (false, None))
}

fn directive_step_exec(acc: (bool, Option<u64>), directive: Vec<char>) -> (r: (bool, Option<u64>))
    ensures
        r == directive_step(acc, directive@),
{
    let d = to_lower(&trim_exec(directive));
    let ns = {
        let r = chars_of("no-store");
        proof {
            reveal_strlit("no-store");
            assert(r@ =~= no_store_chars());
        }
        r
    };
    if chars_eq(&d, &ns) {
        return (true, acc.1);
    }
    let map = {
        let r = chars_of("max-age=");
        proof {
            reveal_strlit("max-age=");
            assert(r@ =~= max_age_prefix());
        }
        r
    };
    if has_prefix_exec(&d, &map) {
        let n = parse_u64_exec(&d, map.len(), d.len());
        let kept = match n {
            Some(v) => if v == 0 {
                None
            } else {
                Some(v)
            },
            None => None,
        };
        return (acc.0, kept);
    }
    (acc.0, acc.1)
}

fn fold_directives_exec(v: Vec<char>, acc: (bool, Option<u64>)) -> (r: (bool, Option<u64>))
    ensures
        r == fold_directives(split_commas(v@), acc),
    decreases v@.len(),
{
    let n = v.len();
    match find_char_exec(&v, ',') {
        None => {
            let ghost ds = split_commas(v@);
            proof {
                assert(ds == seq![v@]);
                assert(ds[0] == v@);
                assert(ds.subrange(1, ds.len() as int) =~= Seq::<Seq<char>>::empty());
                assert(fold_directives(Seq::<Seq<char>>::empty(), directive_step(acc, v@))
                    == directive_step(acc, v@));
                assert(fold_directives(ds, acc) == directive_step(acc, v@));
            }
            directive_step_exec(acc, v)
        },
        Some(i) => {
            let head = subvec(&v, 0, i);
            let tail = subvec(&v, i + 1, n);
            let acc2 = directive_step_exec(acc, head);
            proof {
                assert(split_commas(v@)[0] == v@.subrange(0, i as int));
                assert(split_commas(v@).subrange(1, split_commas(v@).len() as int)
                    =~= split_commas(v@.subrange(i + 1, v@.len() as int)));
            }
            fold_directives_exec(tail, acc2)
        },
    }
}

impl CacheControl {
    /// Parses a `Cache-Control` header value.
    pub fn parse(value: &str) -> (r: CacheControl)
        ensures
            (r.no_store, r.max_age) == spec_cache_control(value@),
    {
        let v = chars_of(value);
        let (no_store, max_age) = fold_directives_exec(v, (false, None));
        CacheControl { no_store, max_age }
    }
}

impl Default for CacheControl {
    /// No directives: cacheable, with no expiry.
    fn default() -> (r: CacheControl)
        ensures
            r.no_store == false,
            r.max_age == None::<u64>,
    {
        CacheControl { no_store: false, max_age: None }
    }
}

} // verus!
