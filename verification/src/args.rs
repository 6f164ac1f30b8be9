//! Command-line options: `--name value` pairs and bare `--flag`s, and the
//! choice of forwarder that `--type` names.
use vstd::prelude::*;

verus! {

/// Whether `a` names an option, that is, starts with `--`.
pub open spec fn is_option(a: Seq<char>) -> bool {
    a.len() >= 2 && a[0] == '-' && a[1] == '-'
}

/// The options read from `args[i..]` on top of `m`: `--name value` when the
/// next argument is not itself an option, else `--name` with an empty value.
/// Arguments that are not options and do not follow one are skipped, and a
/// later option replaces an earlier one of the same name.
pub open spec fn options_from(args: Seq<Seq<char>>, i: int, m: Map<Seq<char>, Seq<char>>) -> Map<
    Seq<char>,
    Seq<char>,
>
    decreases args.len() - i,
{
    if i < 0 || i >= args.len() {
        m
    } else if is_option(args[i]) {
        if i + 1 < args.len() && !is_option(args[i + 1]) {
            options_from(args, i + 2, m.insert(args[i].skip(2), args[i + 1]))
        } else {
            options_from(args, i + 1, m.insert(args[i].skip(2), Seq::<char>::empty()))
        }
    } else {
        options_from(args, i + 1, m)
    }
}

/// The options that the argument list `args` gives.
pub open spec fn options(args: Seq<Seq<char>>) -> Map<Seq<char>, Seq<char>> {
    options_from(args, 0, Map::empty())
}

/// The map that a list of (name, value) entries stands for; a later entry
/// replaces an earlier one of the same name.
pub open spec fn entries_map(e: Seq<(String, String)>) -> Map<Seq<char>, Seq<char>>
    decreases e.len(),
{
    if e.len() == 0 {
        Map::empty()
    } else {
        entries_map(e.drop_last()).insert(e.last().0@, e.last().1@)
    }
}

pub open spec fn distinct_names(e: Seq<(String, String)>) -> bool {
    forall|i: int, j: int| 0 <= i < j < e.len() ==> #[trigger] e[i].0@ != #[trigger] e[j].0@
}

/// Options by name, each name once.
pub struct ArgMap {
    entries: Vec<(String, String)>,
}

impl ArgMap {
    #[verifier::type_invariant]
    spec fn names_distinct(self) -> bool {
        distinct_names(self.entries@)
    }

    pub closed spec fn map(self) -> Map<Seq<char>, Seq<char>> {
        entries_map(self.entries@)
    }
}

impl View for ArgMap {
    type V = Map<Seq<char>, Seq<char>>;

    open spec fn view(&self) -> Map<Seq<char>, Seq<char>> {
        self.map()
    }
}

proof fn lemma_entries_lookup(e: Seq<(String, String)>, k: Seq<char>)
    requires
        distinct_names(e),
    ensures
        (exists|i: int| 0 <= i < e.len() && e[i].0@ == k) <==> entries_map(e).contains_key(k),
        forall|i: int|
            0 <= i < e.len() && #[trigger] e[i].0@ == k ==> entries_map(e)[k] == e[i].1@,
    decreases e.len(),
{
    if e.len() > 0 {
        let t = e.drop_last();
        lemma_entries_lookup(t, k);
        assert forall|i: int|
            0 <= i < e.len() && #[trigger] e[i].0@ == k implies entries_map(e)[k] == e[i].1@ by {
            if i < e.len() - 1 {
                assert(t[i] == e[i]);
                assert(e[i].0@ != e[e.len() - 1].0@);
            }
        }
        if entries_map(e).contains_key(k) && k != e.last().0@ {
            let i = choose|i: int| 0 <= i < t.len() && t[i].0@ == k;
            assert(e[i] == t[i]);
        }
        if exists|i: int| 0 <= i < e.len() && e[i].0@ == k {
            let i = choose|i: int| 0 <= i < e.len() && e[i].0@ == k;
            if i < e.len() - 1 {
                assert(t[i] == e[i]);
            }
        }
    }
}

proof fn lemma_entries_update(e: Seq<(String, String)>, i: int, v: String)
    requires
        distinct_names(e),
        0 <= i < e.len(),
    ensures
        entries_map(e.update(i, (e[i].0, v))) == entries_map(e).insert(e[i].0@, v@),
    decreases e.len(),
{
    let e2 = e.update(i, (e[i].0, v));
    let t = e.drop_last();
    if i == e.len() - 1 {
        assert(e2.drop_last() == t);
        assert(entries_map(e2) =~= entries_map(e).insert(e[i].0@, v@));
    } else {
        assert(t[i] == e[i]);
        lemma_entries_update(t, i, v);
        assert(e2.drop_last() == t.update(i, (t[i].0, v)));
        assert(e[i].0@ != e[e.len() - 1].0@);
        assert(entries_map(e2) =~= entries_map(e).insert(e[i].0@, v@));
    }
}

/// Sets `name` to `value` in a list of distinct names.
fn set_entry(entries: &mut Vec<(String, String)>, name: String, value: String)
    requires
        distinct_names(old(entries)@),
    ensures
        distinct_names(final(entries)@),
        entries_map(final(entries)@) == entries_map(old(entries)@).insert(name@, value@),
{
    let mut i: usize = 0;
    while i < entries.len()
        invariant
            i <= entries.len(),
            entries@ == old(entries)@,
            distinct_names(entries@),
            forall|j: int| 0 <= j < i ==> #[trigger] entries@[j].0@ != name@,
        decreases entries.len() - i,
    {
        if entries[i].0 == name {
            let ghost before = entries@;
            let key = entries[i].0.clone();
            entries.set(i, (key, value));
            proof {
                lemma_entries_update(before, i as int, value);
                assert(entries@ == before.update(i as int, (before[i as int].0, value)));
                assert forall|a: int, b: int| 0 <= a < b < entries@.len() implies #[trigger]
                    entries@[a].0@ != #[trigger] entries@[b].0@ by {
                    assert(entries@[a].0@ == before[a].0@);
                    assert(entries@[b].0@ == before[b].0@);
                }
            }
            return;
        }
        i = i + 1;
    }
    let ghost before = entries@;
    entries.push((name, value));
    proof {
        assert(entries@.drop_last() == before);
        assert(entries@.last() == (name, value));
        assert forall|a: int, b: int| 0 <= a < b < entries@.len() implies #[trigger]
            entries@[a].0@ != #[trigger] entries@[b].0@ by {
            if b == entries@.len() - 1 {
                assert(entries@[a] == before[a]);
                assert(before[a].0@ != name@);
            } else {
                assert(entries@[a] == before[a]);
                assert(entries@[b] == before[b]);
            }
        }
    }
}

fn starts_with_dashes(v: &Vec<char>) -> (res: bool)
    ensures
        res == is_option(v@),
{
    v.len() >= 2 && v[0] == '-' && v[1] == '-'
}

/// Reads the options out of an argument list (the program name already
/// removed): `--name value` when the next argument does not start with
/// `--`, else `--name` with an empty value; other arguments are skipped and
/// a later option replaces an earlier one.
pub fn parse_args(args: &[String]) -> (res: ArgMap)
    ensures
        res@ == options(args@.map_values(|s: String| s@)),
{
    let ghost av = args@.map_values(|s: String| s@);
    let mut entries: Vec<(String, String)> = Vec::new();
    let mut i: usize = 0;
    while i < args.len()
        invariant
            i <= args.len(),
            av == args@.map_values(|s: String| s@),
            distinct_names(entries@),
            options(av) == options_from(av, i as int, entries_map(entries@)),
        decreases args.len() - i,
    {
        let arg = crate::text::chars_of(args[i].as_str());
        assert(arg@ == av[i as int]);
        if starts_with_dashes(&arg) {
            let name = crate::text::string_of(&crate::text::slice_chars(&arg, 2, arg.len()));
            assert(arg@.subrange(2, arg@.len() as int) == arg@.skip(2));
            if i + 1 < args.len() {
                let next = crate::text::chars_of(args[i + 1].as_str());
                assert(next@ == av[i + 1]);
                if !starts_with_dashes(&next) {
                    set_entry(&mut entries, name, args[i + 1].clone());
                    i = i + 2;
                    continue;
                }
            }
            set_entry(&mut entries, name, String::new());
            i = i + 1;
            continue;
        }
        i = i + 1;
    }
    ArgMap { entries }
}

impl ArgMap {
    fn find(&self, key: &str) -> (res: Option<usize>)
        ensures
            match res {
                Some(i) => i < self.entries@.len() && self.entries@[i as int].0@ == key@,
                None => !self@.contains_key(key@),
            },
    {
        proof {
            use_type_invariant(self);
        }
        let name = key.to_owned();
        let mut i: usize = 0;
        while i < self.entries.len()
            invariant
                i <= self.entries.len(),
                name@ == key@,
                forall|j: int| 0 <= j < i ==> #[trigger] self.entries@[j].0@ != key@,
            decreases self.entries.len() - i,
        {
            if self.entries[i].0 == name {
                return Some(i);
            }
            i = i + 1;
        }
        proof {
            lemma_entries_lookup(self.entries@, key@);
        }
        None
    }

    /// The value given for `key` when it was given one that is not empty.
    pub fn optional(&self, key: &str) -> (res: Option<&str>)
        ensures
            res is Some <==> (self@.contains_key(key@) && self@[key@].len() > 0),
            res matches Some(v) ==> v@ == self@[key@],
    {
        proof {
            use_type_invariant(self);
            lemma_entries_lookup(self.entries@, key@);
        }
        match self.find(key) {
            Some(i) => {
                let v = self.entries[i].1.as_str();
                assert(self.entries@[i as int].0@ == key@);
                if v.is_empty() {
                    None
                } else {
                    Some(v)
                }
            },
            None => None,
        }
    }
}

/// The value of an option that must be given: present and not empty.
pub fn required<'a>(args: &'a ArgMap, key: &str) -> (res: &'a str)
    requires
        args@.contains_key(key@),
        args@[key@].len() > 0,
    ensures
        res@ == args@[key@],
{
    match args.optional(key) {
        Some(v) => v,
        None => {
            proof {
                assert(false);
            }
            ""
        },
    }
}

/// The value of an option, when it was given one that is not empty.
pub fn optional<'a>(args: &'a ArgMap, key: &str) -> (res: Option<&'a str>)
    ensures
        res is Some <==> (args@.contains_key(key@) && args@[key@].len() > 0),
        res matches Some(v) ==> v@ == args@[key@],
{
    args.optional(key)
}

/// The kinds of forwarder that `--type` chooses between.
#[derive(Debug, Clone, Copy, PartialEq, Eq, Structural)]
pub enum ProxyKind {
    /// `tcp`: plain TCP forwarding.
    Tcp,
    /// `udp`: UDP forwarding with a socket per client.
    Udp,
    /// `tcpv2`: TCP forwarding that first sends a PROXY version 2 header.
    TcpV2,
    /// `mc`: answers game status requests itself, forwarding nothing.
    Status,
}

/// The forwarder that a `--type` value names.
pub open spec fn kind_named(name: Seq<char>) -> Option<ProxyKind> {
    if name == "tcp"@ {
        Some(ProxyKind::Tcp)
    } else if name == "udp"@ {
        Some(ProxyKind::Udp)
    } else if name == "tcpv2"@ {
        Some(ProxyKind::TcpV2)
    } else if name == "mc"@ {
        Some(ProxyKind::Status)
    } else {
        None
    }
}

/// The forwarder that `name` names, if any.
pub fn proxy_kind(name: &str) -> (res: Option<ProxyKind>)
    ensures
        res == kind_named(name@),
{
    let n = name.to_owned();
    if n == "tcp".to_owned() {
        Some(ProxyKind::Tcp)
    } else if n == "udp".to_owned() {
        Some(ProxyKind::Udp)
    } else if n == "tcpv2".to_owned() {
        Some(ProxyKind::TcpV2)
    } else if n == "mc".to_owned() {
        Some(ProxyKind::Status)
    } else {
        None
    }
}

} // verus!
