//! The applet's eight options, with the names and defaults of the KDE plasmoid it
//! mirrors, and the normalisation of the order of its sections.

use vstd::prelude::*;

use crate::text::{
    chars_of, find_len, push_str, split, split_of, string_of, trim, trimmed, views,
};

verus! {

broadcast use vstd::string::group_string_axioms;

pub const DEFAULT_SECTION_ORDER: &'static str = "temps,network,storage,cpu,gpu,ram";

/// The sections of the panel. Their indices are those of the plasmoid and must not
/// change.
#[derive(Clone, Copy, PartialEq, Eq, Debug, Structural)]
pub enum Section {
    Cpu,
    Ram,
    Network,
    Storage,
    Temps,
    Gpu,
}

/// The key of a section in `section_order`.
pub open spec fn section_key(s: Section) -> Seq<char> {
    match s {
        Section::Cpu => "cpu"@,
        Section::Ram => "ram"@,
        Section::Network => "network"@,
        Section::Storage => "storage"@,
        Section::Temps => "temps"@,
        Section::Gpu => "gpu"@,
    }
}

/// The six keys are pairwise distinct, so reading a section's key gives that section
/// back; a text that is not exactly one of the keys (same case, nothing trimmed) names no
/// section.
pub proof fn lemma_section_keys(k: Seq<char>)
    ensures
        forall|a: Section, b: Section| a != b ==> section_key(a) != section_key(b),
        forall|s: Section| #[trigger] section_of_key(section_key(s)) == Some(s),
        (forall|s: Section| k != #[trigger] section_key(s)) <==> section_of_key(k) is None,
{
    reveal_strlit("cpu");
    reveal_strlit("ram");
    reveal_strlit("network");
    reveal_strlit("storage");
    reveal_strlit("temps");
    reveal_strlit("gpu");
    assert("cpu"@ != "ram"@ && "cpu"@ != "gpu"@ && "ram"@ != "gpu"@) by {
        assert("cpu"@[0] != "ram"@[0] && "cpu"@[0] != "gpu"@[0] && "ram"@[0] != "gpu"@[0]);
    }
    assert("storage"@ != "network"@) by {
        assert("storage"@[0] != "network"@[0]);
    }
    assert forall|a: Section, b: Section| a != b implies section_key(a) != section_key(b) by {
        if section_key(a).len() == section_key(b).len() {
            assert(section_key(a)[0] != section_key(b)[0] || section_key(a) != section_key(b));
        }
    }
    if section_of_key(k) is None {
        assert forall|s: Section| k != #[trigger] section_key(s) by {}
    } else {
        let s = section_of_key(k).unwrap();
        assert(k == section_key(s));
    }
}

/// The title of a section.
pub open spec fn section_label(s: Section) -> Seq<char> {
    match s {
        Section::Cpu => "CPU"@,
        Section::Ram => "RAM"@,
        Section::Network => "Red"@,
        Section::Storage => "Disco"@,
        Section::Temps => "Temperaturas"@,
        Section::Gpu => "GPU"@,
    }
}

pub open spec fn section_index(s: Section) -> nat {
    match s {
        Section::Cpu => 0,
        Section::Ram => 1,
        Section::Network => 2,
        Section::Storage => 3,
        Section::Temps => 4,
        Section::Gpu => 5,
    }
}

/// Every section, in the order of their indices.
pub open spec fn all_sections() -> Seq<Section> {
    seq![
        Section::Cpu,
        Section::Ram,
        Section::Network,
        Section::Storage,
        Section::Temps,
        Section::Gpu,
    ]
}

/// The section whose key is `k`: the first of `all_sections()` that has it.
pub open spec fn section_of_key(k: Seq<char>) -> Option<Section> {
    if k == section_key(Section::Cpu) {
        Some(Section::Cpu)
    } else if k == section_key(Section::Ram) {
        Some(Section::Ram)
    } else if k == section_key(Section::Network) {
        Some(Section::Network)
    } else if k == section_key(Section::Storage) {
        Some(Section::Storage)
    } else if k == section_key(Section::Temps) {
        Some(Section::Temps)
    } else if k == section_key(Section::Gpu) {
        Some(Section::Gpu)
    } else {
        None
    }
}

impl Section {
    pub fn all() -> (out: [Section; 6])
        ensures
            out@ == all_sections(),
    {
        let out = [
            Section::Cpu,
            Section::Ram,
            Section::Network,
            Section::Storage,
            Section::Temps,
            Section::Gpu,
        ];
        assert(out@ =~= all_sections());
        out
    }

    pub fn key(&self) -> (k: &'static str)
        ensures
            k@ == section_key(*self),
    {
        match self {
            Section::Cpu => "cpu",
            Section::Ram => "ram",
            Section::Network => "network",
            Section::Storage => "storage",
            Section::Temps => "temps",
            Section::Gpu => "gpu",
        }
    }

    pub fn label(&self) -> (l: &'static str)
        ensures
            l@ == section_label(*self),
    {
        match self {
            Section::Cpu => "CPU",
            Section::Ram => "RAM",
            Section::Network => "Red",
            Section::Storage => "Disco",
            Section::Temps => "Temperaturas",
            Section::Gpu => "GPU",
        }
    }

    pub fn index(&self) -> (i: usize)
        ensures
            i == section_index(*self),
    {
        match self {
            Section::Cpu => 0,
            Section::Ram => 1,
            Section::Network => 2,
            Section::Storage => 3,
            Section::Temps => 4,
            Section::Gpu => 5,
        }
    }

    /// The section whose key is `key`, if any.
    fn from_key(key: &Vec<char>) -> (out: Option<Section>)
        ensures
            out == section_of_key(key@),
    {
        let all = Section::all();
        let mut i: usize = 0;
        while i < 6
            invariant
                i <= 6,
                all@ == all_sections(),
                forall|j: int| 0 <= j < i ==> key@ != section_key(#[trigger] all_sections()[j]),
            decreases 6 - i,
        {
            let s = all[i];
            let k = chars_of(s.key());
            if eq_chars(&k, key) {
                return Some(s);
            }
            i += 1;
        }
        assert(key@ != section_key(all_sections()[0]));
        assert(key@ != section_key(all_sections()[1]));
        assert(key@ != section_key(all_sections()[2]));
        assert(key@ != section_key(all_sections()[3]));
        assert(key@ != section_key(all_sections()[4]));
        assert(key@ != section_key(all_sections()[5]));
        None
    }
}

/// Whether `a` and `b` hold the same characters.
pub fn eq_chars(a: &Vec<char>, b: &Vec<char>) -> (r: bool)
    ensures
        r == (a@ == b@),
{
    if a.len() != b.len() {
        return false;
    }
    let mut i: usize = 0;
    while i < a.len()
        invariant
            i <= a.len() == b.len(),
            forall|j: int| 0 <= j < i ==> a@[j] == b@[j],
        decreases a.len() - i,
    {
        if a[i] != b[i] {
            return false;
        }
        i += 1;
    }
    assert(a@ =~= b@);
    true
}

/// `list` with `s` added at the end, unless it is already there.
pub open spec fn add_unique(list: Seq<Section>, s: Section) -> Seq<Section> {
    if list.contains(s) {
        list
    } else {
        list.push(s)
    }
}

/// The known keys among `pieces`, trimmed, each section once, in the order of first
/// appearance.
pub open spec fn known_sections(pieces: Seq<Seq<char>>) -> Seq<Section>
    decreases pieces.len(),
{
    if pieces.len() == 0 {
        seq![]
    } else {
        let before = known_sections(pieces.drop_last());
        match section_of_key(trim(pieces.last())) {
            Some(s) => add_unique(before, s),
            None => before,
        }
    }
}

/// `list` followed by the sections of `more` that it lacks, in their order.
pub open spec fn add_missing(list: Seq<Section>, more: Seq<Section>) -> Seq<Section>
    decreases more.len(),
{
    if more.len() == 0 {
        list
    } else {
        add_unique(add_missing(list, more.drop_last()), more.last())
    }
}

/// The sections in the order of `DEFAULT_SECTION_ORDER`.
pub open spec fn default_sections() -> Seq<Section> {
    seq![
        Section::Temps,
        Section::Network,
        Section::Storage,
        Section::Cpu,
        Section::Gpu,
        Section::Ram,
    ]
}

/// `normalizedSectionOrder` of the plasmoid: the known keys of the comma-separated
/// `raw`, trimmed and without repeats, then the missing ones in the default order.
pub open spec fn normalized_order(raw: Seq<char>) -> Seq<Section> {
    add_missing(known_sections(split(raw, ',')), default_sections())
}

fn push_unique(out: &mut Vec<Section>, s: Section)
    ensures
        final(out)@ == add_unique(old(out)@, s),
{
    let mut i: usize = 0;
    while i < out.len()
        invariant
            i <= out.len(),
            forall|j: int| 0 <= j < i ==> out@[j] != s,
        decreases out.len() - i,
    {
        if out[i] == s {
            assert(out@.contains(s));
            return;
        }
        i += 1;
    }
    assert(!out@.contains(s));
    out.push(s);
}

fn default_list() -> (out: Vec<Section>)
    ensures
        out@ == default_sections(),
{
    let out = vec![
        Section::Temps,
        Section::Network,
        Section::Storage,
        Section::Cpu,
        Section::Gpu,
        Section::Ram,
    ];
    assert(out@ =~= default_sections());
    out
}

/// Same logic as `normalizedSectionOrder` in the plasmoid's `ConfigGeneral.qml`: drops
/// unknown and repeated keys, and appends the missing ones in the default order.
pub fn normalize_section_order(raw: &str) -> (out: Vec<Section>)
    ensures
        out@ == normalized_order(raw@),
        out@.len() == 6,
        out@.no_duplicates(),
        forall|s: Section| out@.contains(s),
{
    proof {
        lemma_normalized_is_permutation(raw@);
    }
    let chars = chars_of(raw);
    let pieces = split_of(&chars, ',');
    let mut out: Vec<Section> = Vec::new();
    let mut i: usize = 0;
    assert(views(pieces@).take(0) =~= Seq::<Seq<char>>::empty());
    while i < pieces.len()
        invariant
            i <= pieces.len(),
            views(pieces@) == split(raw@, ','),
            out@ == known_sections(views(pieces@).take(i as int)),
        decreases pieces.len() - i,
    {
        let ghost pre = views(pieces@).take(i as int);
        let ghost next = views(pieces@).take(i + 1);
        assert(next.drop_last() =~= pre);
        assert(next.last() == pieces@[i as int]@);
        let part = trimmed(&pieces[i]);
        match Section::from_key(&part) {
            Some(s) => push_unique(&mut out, s),
            None => {},
        }
        i += 1;
    }
    assert(views(pieces@).take(i as int) =~= views(pieces@));
    let defaults = default_list();
    let ghost known = out@;
    let mut j: usize = 0;
    assert(defaults@.take(0) =~= Seq::<Section>::empty());
    while j < defaults.len()
        invariant
            j <= defaults.len(),
            defaults@ == default_sections(),
            out@ == add_missing(known, defaults@.take(j as int)),
        decreases defaults.len() - j,
    {
        assert(defaults@.take(j + 1).drop_last() =~= defaults@.take(j as int));
        push_unique(&mut out, defaults[j]);
        j += 1;
    }
    assert(defaults@.take(j as int) =~= defaults@);
    out
}


proof fn lemma_add_unique(list: Seq<Section>, s: Section)
    requires
        list.no_duplicates(),
    ensures
        add_unique(list, s).no_duplicates(),
        add_unique(list, s).contains(s),
        forall|x: Section| list.contains(x) ==> add_unique(list, s).contains(x),
        forall|x: Section| #[trigger] add_unique(list, s).contains(x) ==> list.contains(x) || x == s,
        list.is_prefix_of(add_unique(list, s)),
{
    if !list.contains(s) {
        let l2 = list.push(s);
        assert(l2[list.len() as int] == s);
        assert forall|x: Section| list.contains(x) implies l2.contains(x) by {
            let i = choose|i: int| 0 <= i < list.len() && list[i] == x;
            assert(l2[i] == x);
        }
        assert forall|x: Section| #[trigger] l2.contains(x) implies list.contains(x) || x == s by {
            let i = choose|i: int| 0 <= i < l2.len() && l2[i] == x;
            if i < list.len() {
                assert(list[i] == x);
            }
        }
        assert(list =~= l2.subrange(0, list.len() as int));
    } else {
        assert(list =~= list.subrange(0, list.len() as int));
    }
}

proof fn lemma_known_sections(pieces: Seq<Seq<char>>)
    ensures
        known_sections(pieces).no_duplicates(),
    decreases pieces.len(),
{
    if pieces.len() > 0 {
        lemma_known_sections(pieces.drop_last());
        match section_of_key(trim(pieces.last())) {
            Some(s) => lemma_add_unique(known_sections(pieces.drop_last()), s),
            None => {},
        }
    }
}

proof fn lemma_add_missing(list: Seq<Section>, more: Seq<Section>)
    requires
        list.no_duplicates(),
    ensures
        add_missing(list, more).no_duplicates(),
        forall|x: Section| list.contains(x) ==> add_missing(list, more).contains(x),
        forall|x: Section| more.contains(x) ==> add_missing(list, more).contains(x),
        list.is_prefix_of(add_missing(list, more)),
    decreases more.len(),
{
    if more.len() > 0 {
        let m = more.drop_last();
        lemma_add_missing(list, m);
        lemma_add_unique(add_missing(list, m), more.last());
        assert forall|x: Section| more.contains(x) implies add_missing(list, more).contains(x) by {
            let i = choose|i: int| 0 <= i < more.len() && more[i] == x;
            if i < more.len() - 1 {
                assert(m[i] == x);
                assert(m.contains(x));
            } else {
                assert(more.last() == x);
            }
            assert(add_missing(list, more) == add_unique(add_missing(list, m), more.last()));
        }
    } else {
        assert(list =~= list.subrange(0, list.len() as int));
    }
}

/// A list of sections without repeats that has every section holds exactly six.
proof fn lemma_six(l: Seq<Section>)
    requires
        l.no_duplicates(),
        forall|x: Section| l.contains(x),
    ensures
        l.len() == 6,
{
    let full = set![
        Section::Cpu,
        Section::Ram,
        Section::Network,
        Section::Storage,
        Section::Temps,
        Section::Gpu,
    ];
    assert forall|x: Section| full.contains(x) by {
        match x {
            Section::Cpu => {},
            Section::Ram => {},
            Section::Network => {},
            Section::Storage => {},
            Section::Temps => {},
            Section::Gpu => {},
        }
    }
    assert(l.to_set() =~= full);
    l.unique_seq_to_set();
    assert(full.len() == 6);
}

/// A normalised order names every section exactly once, whatever the text it was
/// read from.
pub proof fn lemma_normalized_is_permutation(raw: Seq<char>)
    ensures
        normalized_order(raw).no_duplicates(),
        normalized_order(raw).len() == 6,
        forall|s: Section| normalized_order(raw).contains(s),
{
    let known = known_sections(split(raw, ','));
    lemma_known_sections(split(raw, ','));
    lemma_add_missing(known, default_sections());
    assert forall|s: Section| normalized_order(raw).contains(s) by {
        let d = default_sections();
        match s {
            Section::Temps => assert(d[0] == s),
            Section::Network => assert(d[1] == s),
            Section::Storage => assert(d[2] == s),
            Section::Cpu => assert(d[3] == s),
            Section::Gpu => assert(d[4] == s),
            Section::Ram => assert(d[5] == s),
        }
        assert(d.contains(s));
    }
    lemma_six(normalized_order(raw));
}

/// The known sections of the text come first, in the order in which they first
/// appear: a normalised order keeps what the user chose.
pub proof fn lemma_normalized_keeps_known(raw: Seq<char>)
    ensures
        known_sections(split(raw, ',')).is_prefix_of(normalized_order(raw)),
{
    lemma_known_sections(split(raw, ','));
    lemma_add_missing(known_sections(split(raw, ',')), default_sections());
}


/// The options of the applet. `section_order` is a comma-separated list of keys.
#[derive(Clone, Debug)]
pub struct Config {
    pub update_interval: u32,
    pub show_cpu: bool,
    pub show_ram: bool,
    pub show_network: bool,
    pub show_storage: bool,
    pub show_temps: bool,
    pub show_gpu: bool,
    pub section_order: String,
}

impl Default for Config {
    fn default() -> (c: Self)
        ensures
            c.update_interval == 2000,
            c.show_cpu && c.show_ram && c.show_network,
            c.show_storage && c.show_temps && c.show_gpu,
            c.section_order@ == DEFAULT_SECTION_ORDER@,
    {
        Config {
            update_interval: 2000,
            show_cpu: true,
            show_ram: true,
            show_network: true,
            show_storage: true,
            show_temps: true,
            show_gpu: true,
            section_order: DEFAULT_SECTION_ORDER.to_string(),
        }
    }
}

/// Whether the configuration shows section `s` in the panel.
pub open spec fn is_shown(c: Config, s: Section) -> bool {
    match s {
        Section::Cpu => c.show_cpu,
        Section::Ram => c.show_ram,
        Section::Network => c.show_network,
        Section::Storage => c.show_storage,
        Section::Temps => c.show_temps,
        Section::Gpu => c.show_gpu,
    }
}

/// The sections of `list` that `c` shows, in their order.
pub open spec fn shown_only(c: Config, list: Seq<Section>) -> Seq<Section>
    decreases list.len(),
{
    if list.len() == 0 {
        seq![]
    } else if is_shown(c, list.last()) {
        shown_only(c, list.drop_last()).push(list.last())
    } else {
        shown_only(c, list.drop_last())
    }
}

/// The sections of the panel: the normalised order, without the hidden ones.
pub open spec fn visible_sections(c: Config) -> Seq<Section> {
    shown_only(c, normalized_order(c.section_order@))
}

impl Config {
    pub fn shown(&self, s: Section) -> (b: bool)
        ensures
            b == is_shown(*self, s),
    {
        match s {
            Section::Cpu => self.show_cpu,
            Section::Ram => self.show_ram,
            Section::Network => self.show_network,
            Section::Storage => self.show_storage,
            Section::Temps => self.show_temps,
            Section::Gpu => self.show_gpu,
        }
    }

    /// The normalised order, without the sections that `show_*` hides.
    pub fn ordered_sections(&self) -> (out: Vec<Section>)
        ensures
            out@ == visible_sections(*self),
    {
        let all = normalize_section_order(self.section_order.as_str());
        let mut out: Vec<Section> = Vec::new();
        let mut i: usize = 0;
        assert(all@.take(0) =~= Seq::<Section>::empty());
        while i < all.len()
            invariant
                i <= all.len(),
                all@ == normalized_order(self.section_order@),
                out@ == shown_only(*self, all@.take(i as int)),
            decreases all.len() - i,
        {
            assert(all@.take(i + 1).drop_last() =~= all@.take(i as int));
            if self.shown(all[i]) {
                out.push(all[i]);
            }
            i += 1;
        }
        assert(all@.take(i as int) =~= all@);
        out
    }
}

proof fn lemma_shown_only(c: Config, list: Seq<Section>)
    ensures
        forall|x: Section| #[trigger] shown_only(c, list).contains(x) <==> list.contains(x)
            && is_shown(c, x),
        list.no_duplicates() ==> shown_only(c, list).no_duplicates(),
    decreases list.len(),
{
    if list.len() > 0 {
        let pre = list.drop_last();
        lemma_shown_only(c, pre);
        assert forall|x: Section| list.contains(x) <==> pre.contains(x) || x == list.last() by {
            if list.contains(x) {
                let i = choose|i: int| 0 <= i < list.len() && list[i] == x;
                if i < list.len() - 1 {
                    assert(pre[i] == x);
                }
            }
            if pre.contains(x) {
                let i = choose|i: int| 0 <= i < pre.len() && pre[i] == x;
                assert(list[i] == x);
            }
            if x == list.last() {
                assert(list[list.len() - 1] == x);
            }
        }
        let sp = shown_only(c, pre);
        if is_shown(c, list.last()) {
            let r = sp.push(list.last());
            assert forall|x: Section| r.contains(x) <==> sp.contains(x) || x == list.last() by {
                if r.contains(x) {
                    let i = choose|i: int| 0 <= i < r.len() && r[i] == x;
                    if i < sp.len() {
                        assert(sp[i] == x);
                    }
                }
                if sp.contains(x) {
                    let i = choose|i: int| 0 <= i < sp.len() && sp[i] == x;
                    assert(r[i] == x);
                }
                if x == list.last() {
                    assert(r[sp.len() as int] == x);
                }
            }
            if list.no_duplicates() {
                assert(!pre.contains(list.last())) by {
                    if pre.contains(list.last()) {
                        let i = choose|i: int| 0 <= i < pre.len() && pre[i] == list.last();
                        assert(list[i] == list[list.len() - 1]);
                    }
                }
                assert(pre.no_duplicates()) by {
                    assert forall|i: int, j: int|
                        0 <= i < pre.len() && 0 <= j < pre.len() && i != j implies pre[i]
                        != pre[j] by {
                        assert(pre[i] == list[i] && pre[j] == list[j]);
                    }
                }
                assert(!sp.contains(list.last()));
                assert forall|i: int, j: int|
                    0 <= i < r.len() && 0 <= j < r.len() && i != j implies r[i] != r[j] by {
                    if i < sp.len() && j < sp.len() {
                        assert(r[i] == sp[i] && r[j] == sp[j]);
                    } else if i < sp.len() {
                        assert(r[i] == sp[i]);
                        assert(sp.contains(sp[i]));
                    } else if j < sp.len() {
                        assert(r[j] == sp[j]);
                        assert(sp.contains(sp[j]));
                    }
                }
            }
        } else {
            if list.no_duplicates() {
                assert(pre.no_duplicates()) by {
                    assert forall|i: int, j: int|
                        0 <= i < pre.len() && 0 <= j < pre.len() && i != j implies pre[i]
                        != pre[j] by {
                        assert(pre[i] == list[i] && pre[j] == list[j]);
                    }
                }
            }
        }
    }
}

/// The panel shows each section at most once, and exactly those that the configuration
/// turns on.
pub proof fn lemma_visible_sections(c: Config)
    ensures
        visible_sections(c).no_duplicates(),
        forall|s: Section| #[trigger] visible_sections(c).contains(s) <==> is_shown(c, s),
{
    lemma_normalized_is_permutation(c.section_order@);
    lemma_shown_only(c, normalized_order(c.section_order@));
}


/// The keys of `list`, separated by commas.
pub open spec fn join_keys(list: Seq<Section>) -> Seq<char>
    decreases list.len(),
{
    if list.len() == 0 {
        seq![]
    } else if list.len() == 1 {
        section_key(list[0])
    } else {
        section_key(list[0]) + seq![','] + join_keys(list.drop_first())
    }
}

/// Position of the first `s` in `list`, or `list.len()`.
pub open spec fn position(list: Seq<Section>, s: Section) -> int
    decreases list.len(),
{
    if list.len() == 0 {
        0
    } else if list[0] == s {
        0
    } else {
        1 + position(list.drop_first(), s)
    }
}

/// `list` with `s` moved `delta` places; unchanged when that would leave the list.
pub open spec fn moved(list: Seq<Section>, s: Section, delta: int) -> Seq<Section> {
    let from = position(list, s);
    let to = from + delta;
    if from >= list.len() || to < 0 || to >= list.len() {
        list
    } else {
        list.remove(from).insert(to, s)
    }
}

proof fn lemma_join_push(list: Seq<Section>, s: Section)
    ensures
        join_keys(list.push(s)) == if list.len() == 0 {
            section_key(s)
        } else {
            join_keys(list) + seq![','] + section_key(s)
        },
    decreases list.len(),
{
    let l2 = list.push(s);
    if list.len() == 0 {
        assert(l2[0] == s);
    } else if list.len() == 1 {
        assert(l2.drop_first() =~= seq![s]);
        assert(join_keys(l2.drop_first()) == section_key(s));
        assert(l2[0] == list[0]);
        assert(join_keys(l2) =~= join_keys(list) + seq![','] + section_key(s));
    } else if list.len() > 1 {
        lemma_join_push(list.drop_first(), s);
        assert(l2.drop_first() =~= list.drop_first().push(s));
        assert(l2[0] == list[0]);
        assert(join_keys(l2) =~= join_keys(list) + seq![','] + section_key(s));
    }
}

proof fn lemma_position(list: Seq<Section>, s: Section, k: int)
    requires
        0 <= k <= list.len(),
        forall|j: int| 0 <= j < k ==> list[j] != s,
        k == list.len() || list[k] == s,
    ensures
        position(list, s) == k,
    decreases k,
{
    if k > 0 {
        lemma_position(list.drop_first(), s, k - 1);
    }
}

/// Moves a section within the order, like `moveSection` of the plasmoid's
/// `ConfigGeneral.qml`: a move that would leave the list does nothing. The result is
/// the normalised order, written back as keys.
pub fn move_in_order(order: &str, s: Section, delta: i32) -> (out: String)
    ensures
        out@ == join_keys(moved(normalized_order(order@), s, delta as int)),
{
    let mut list = normalize_section_order(order);
    let mut from: usize = 0;
    while from < list.len() && list[from] != s
        invariant
            from <= list.len(),
            forall|j: int| 0 <= j < from ==> list@[j] != s,
        decreases list.len() - from,
    {
        from += 1;
    }
    proof {
        lemma_position(list@, s, from as int);
    }
    let ghost before = list@;
    if from == list.len() {
        return string_of(&join_chars(&list));
    }
    let to = from as i64 + delta as i64;
    if to >= 0 && to < list.len() as i64 {
        let item = list.remove(from);
        list.insert(to as usize, item);
        assert(list@ =~= before.remove(from as int).insert(to as int, s));
    }
    string_of(&join_chars(&list))
}

/// The keys of `list`, separated by commas.
fn join_chars(list: &Vec<Section>) -> (out: Vec<char>)
    ensures
        out@ == join_keys(list@),
{
    let mut out: Vec<char> = Vec::new();
    let mut i: usize = 0;
    assert(list@.take(0) =~= Seq::<Section>::empty());
    while i < list.len()
        invariant
            i <= list.len(),
            out@ == join_keys(list@.take(i as int)),
        decreases list.len() - i,
    {
        proof {
            lemma_join_push(list@.take(i as int), list@[i as int]);
            assert(list@.take(i as int).push(list@[i as int]) =~= list@.take(i + 1));
        }
        if i > 0 {
            out.push(',');
        }
        push_str(&mut out, list[i].key());
        i += 1;
    }
    assert(list@.take(i as int) =~= list@);
    out
}


proof fn lemma_key_facts(s: Section)
    ensures
        section_key(s).len() > 0,
        forall|j: int|
            0 <= j < section_key(s).len() ==> #[trigger] section_key(s)[j] != ','
                && !crate::text::is_ws(section_key(s)[j]),
        section_of_key(section_key(s)) == Some(s),
{
    reveal_strlit("cpu");
    reveal_strlit("ram");
    reveal_strlit("network");
    reveal_strlit("storage");
    reveal_strlit("temps");
    reveal_strlit("gpu");
    match s {
        Section::Cpu => {},
        Section::Ram => {
            assert(section_key(s)[0] != "cpu"@[0]);
        },
        Section::Network => {
            assert(section_key(s).len() != "cpu"@.len());
            assert(section_key(s).len() != "ram"@.len());
        },
        Section::Storage => {
            assert(section_key(s).len() != "cpu"@.len());
            assert(section_key(s).len() != "ram"@.len());
            assert(section_key(s)[0] != "network"@[0]);
        },
        Section::Temps => {
            assert(section_key(s).len() != "cpu"@.len());
            assert(section_key(s).len() != "ram"@.len());
            assert(section_key(s).len() != "network"@.len());
            assert(section_key(s).len() != "storage"@.len());
        },
        Section::Gpu => {
            assert(section_key(s)[0] != "cpu"@[0]);
            assert(section_key(s)[0] != "ram"@[0]);
            assert(section_key(s).len() != "network"@.len());
            assert(section_key(s).len() != "storage"@.len());
            assert(section_key(s).len() != "temps"@.len());
        },
    }
}

proof fn lemma_trim_key(s: Section)
    ensures
        trim(section_key(s)) == section_key(s),
{
    lemma_key_facts(s);
    let k = section_key(s);
    assert(!crate::text::is_ws(k[0]));
    assert(crate::text::trim_start(k) == k);
    assert(!crate::text::is_ws(k[k.len() - 1]));
    assert(crate::text::trim_end(k) == k);
}

proof fn lemma_split_join(l: Seq<Section>)
    requires
        l.len() >= 1,
    ensures
        split(join_keys(l), ',') == l.map_values(|x: Section| section_key(x)),
    decreases l.len(),
{
    let k0 = section_key(l[0]);
    lemma_key_facts(l[0]);
    if l.len() == 1 {
        crate::text::lemma_find_len(k0, ',', k0.len() as int);
        assert(split(k0, ',') == seq![k0]);
        assert(l.map_values(|x: Section| section_key(x)) =~= seq![k0]);
    } else {
        let rest = l.drop_first();
        let j = join_keys(l);
        assert(j == k0 + seq![','] + join_keys(rest));
        assert forall|i: int| 0 <= i < k0.len() implies j[i] != ',' by {
            assert(j[i] == k0[i]);
        }
        assert(j[k0.len() as int] == ',');
        crate::text::lemma_find_len(j, ',', k0.len() as int);
        assert(j.take(k0.len() as int) =~= k0);
        assert(j.skip(k0.len() + 1 as int) =~= join_keys(rest));
        lemma_split_join(rest);
        assert(split(j, ',') == seq![k0] + split(join_keys(rest), ','));
        assert(l.map_values(|x: Section| section_key(x)) =~= seq![k0] + rest.map_values(
            |x: Section| section_key(x),
        ));
    }
}

proof fn lemma_known_of_keys(l: Seq<Section>)
    requires
        l.no_duplicates(),
    ensures
        known_sections(l.map_values(|x: Section| section_key(x))) == l,
    decreases l.len(),
{
    let pieces = l.map_values(|x: Section| section_key(x));
    if l.len() == 0 {
        assert(pieces.len() == 0);
        assert(l =~= Seq::<Section>::empty());
    } else {
        let pre = l.drop_last();
        assert(pieces.drop_last() =~= pre.map_values(|x: Section| section_key(x)));
        assert(pre.no_duplicates()) by {
            assert forall|i: int, j: int|
                0 <= i < pre.len() && 0 <= j < pre.len() && i != j implies pre[i] != pre[j] by {
                assert(pre[i] == l[i] && pre[j] == l[j]);
            }
        }
        lemma_known_of_keys(pre);
        lemma_trim_key(l.last());
        lemma_key_facts(l.last());
        assert(pieces.last() == section_key(l.last()));
        assert(!pre.contains(l.last())) by {
            if pre.contains(l.last()) {
                let i = choose|i: int| 0 <= i < pre.len() && pre[i] == l.last();
                assert(l[i] == l[l.len() - 1]);
            }
        }
        assert(pre.push(l.last()) =~= l);
    }
}

proof fn lemma_add_missing_present(list: Seq<Section>, more: Seq<Section>)
    requires
        forall|x: Section| more.contains(x) ==> list.contains(x),
    ensures
        add_missing(list, more) == list,
    decreases more.len(),
{
    if more.len() > 0 {
        let m = more.drop_last();
        assert forall|x: Section| m.contains(x) implies list.contains(x) by {
            let i = choose|i: int| 0 <= i < m.len() && m[i] == x;
            assert(more[i] == x);
        }
        lemma_add_missing_present(list, m);
        assert(more.contains(more.last())) by {
            assert(more[more.len() - 1] == more.last());
        }
    }
}

/// An order that names every section once reads back as itself once its keys are
/// written out: what `move_in_order` saves is what the next normalisation gives.
pub proof fn lemma_order_roundtrip(l: Seq<Section>)
    requires
        l.no_duplicates(),
        forall|s: Section| l.contains(s),
    ensures
        normalized_order(join_keys(l)) == l,
{
    lemma_six(l);
    lemma_split_join(l);
    lemma_known_of_keys(l);
    lemma_add_missing_present(l, default_sections());
}

/// Moving a section keeps every section exactly once.
pub proof fn lemma_moved_is_permutation(l: Seq<Section>, s: Section, delta: int)
    requires
        l.no_duplicates(),
        forall|x: Section| l.contains(x),
    ensures
        moved(l, s, delta).no_duplicates(),
        forall|x: Section| moved(l, s, delta).contains(x),
        moved(l, s, delta).len() == l.len(),
{
    let from = position(l, s);
    let to = from + delta;
    assert(l.contains(s));
    let k = choose|k: int| 0 <= k < l.len() && l[k] == s;
    assert forall|j: int| 0 <= j < k implies l[j] != s by {}
    lemma_position(l, s, k);
    if !(from >= l.len() || to < 0 || to >= l.len()) {
        let r = l.remove(from);
        l.remove_ensures(from);
        let m = r.insert(to, s);
        r.insert_ensures(to, s);
        assert forall|i: int| 0 <= i < r.len() implies r[i] != s by {
            if i < from {
                assert(r[i] == l[i]);
            } else {
                assert(r[i] == l[i + 1]);
            }
        }
        assert forall|x: Section| m.contains(x) by {
            if x == s {
                assert(m[to] == s);
            } else {
                assert(l.contains(x));
                let i = choose|i: int| 0 <= i < l.len() && l[i] == x;
                assert(i != from);
                let ri = if i < from { i } else { i - 1 };
                assert(r[ri] == x);
                if ri < to {
                    assert(m[ri] == x);
                } else {
                    assert(m[ri + 1] == x);
                }
            }
        }
        assert forall|i: int, j: int|
            0 <= i < m.len() && 0 <= j < m.len() && i != j implies m[i] != m[j] by {
            let oi = if i < to { i } else if i == to { -1 } else { i - 1 };
            let oj = if j < to { j } else if j == to { -1 } else { j - 1 };
            if oi >= 0 {
                assert(m[i] == r[oi]);
            }
            if oj >= 0 {
                assert(m[j] == r[oj]);
            }
            if oi >= 0 && oj >= 0 {
                let li = if oi < from { oi } else { oi + 1 };
                let lj = if oj < from { oj } else { oj + 1 };
                assert(r[oi] == l[li]);
                assert(r[oj] == l[lj]);
            }
        }
    }
}

/// What `move_in_order` saves reads back, once normalised, as the moved order.
pub proof fn lemma_move_reads_back(order: Seq<char>, s: Section, delta: int)
    ensures
        normalized_order(join_keys(moved(normalized_order(order), s, delta))) == moved(
            normalized_order(order),
            s,
            delta,
        ),
{
    lemma_normalized_is_permutation(order);
    lemma_moved_is_permutation(normalized_order(order), s, delta);
    lemma_order_roundtrip(moved(normalized_order(order), s, delta));
}

} // verus!
