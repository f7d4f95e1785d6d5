use vstd::prelude::*;
use vstd::string::StrSliceExecFns;
use crate::selection::{Sel, sel_of};
use crate::text::{split_whitespace, words};
use crate::trie::{
    ConfigError, Trie, can_grow_by, config_error, grown_from, is_prefix, labels_of,
    lemma_grown_label_count, lemma_grown_prefix_free, lemma_grown_shared_prefix, prefix_free,
    views,
};

verus! {

/// A selection and the label shown over it.
pub struct ReplaceRange {
    pub sel: Sel,
    pub label: String,
}

/// What one run decides: drop the hints, show freshly made ones, or show
/// what is left of them after a key.
pub enum Response {
    Cleanup,
    LabelsGenerated { replace_ranges: Vec<ReplaceRange> },
    Reduced { replace_ranges: Vec<ReplaceRange> },
}

/// Where a session stands after a response.
#[derive(Clone, Copy, Debug, PartialEq, Eq, Structural)]
pub enum Outcome {
    /// Several selections are still labelled: more keys are needed.
    Active,
    /// Exactly one selection is left.
    Resolved(Sel),
    /// The abort key was typed.
    Cancelled,
    /// No label went on with the typed key.
    Exhausted,
}

/// The arguments of one run.
pub struct Cli {
    pub keyset: Option<String>,
    pub sels: Option<String>,
    pub labels: Option<String>,
    pub key: Option<String>,
}

/// The state that one run acts on.
pub struct App {
    pub keyset: Vec<char>,
    pub sels: Vec<Sel>,
    pub labels: Vec<String>,
    pub key: Option<String>,
}

/// The key that cancels a session.
pub open spec fn abort_key() -> Seq<char> {
    seq!['<', 'e', 's', 'c', '>']
}

/// Each range as its selection and the text of its label.
pub open spec fn range_views(v: Seq<ReplaceRange>) -> Seq<(Sel, Seq<char>)> {
    v.map_values(|r: ReplaceRange| (r.sel, r.label@))
}

/// Labels and selections paired by position, as far as both go.
pub open spec fn zip_labels(labels: Seq<Seq<char>>, sels: Seq<Sel>) -> Seq<(Sel, Seq<char>)> {
    let n = if labels.len() < sels.len() {
        labels.len()
    } else {
        sels.len()
    };
    Seq::new(n, |i: int| (sels[i], labels[i]))
}

/// The candidates whose label starts with `key`, in order, each with `key`
/// taken off the front of its label.
pub open spec fn narrowed(cands: Seq<(Sel, Seq<char>)>, key: Seq<char>) -> Seq<(Sel, Seq<char>)>
    decreases cands.len(),
{
    if cands.len() == 0 {
        Seq::empty()
    } else {
        let last = cands.last();
        narrowed(cands.drop_last(), key) + if is_prefix(key, last.1) {
            seq![(last.0, last.1.skip(key.len() as int))]
        } else {
            Seq::empty()
        }
    }
}

/// Where a session stands with these candidates left.
pub open spec fn outcome_of(cands: Seq<(Sel, Seq<char>)>) -> Outcome {
    if cands.len() == 0 {
        Outcome::Exhausted
    } else if cands.len() == 1 {
        Outcome::Resolved(cands[0].0)
    } else {
        Outcome::Active
    }
}

/// The candidates left after typing the keys of `word` one at a time.
pub open spec fn feed(cands: Seq<(Sel, Seq<char>)>, word: Seq<char>) -> Seq<(Sel, Seq<char>)>
    decreases word.len(),
{
    if word.len() == 0 {
        cands
    } else {
        feed(narrowed(cands, seq![word[0]]), word.skip(1))
    }
}

/// Narrowing by the empty key keeps every candidate as it is.
proof fn lemma_reduce_empty(cands: Seq<(Sel, Seq<char>)>)
    ensures
        narrowed(cands, Seq::empty()) == cands,
    decreases cands.len(),
{
    if cands.len() > 0 {
        lemma_reduce_empty(cands.drop_last());
        let l = cands.last();
        assert(l.1.subrange(0, 0) =~= Seq::<char>::empty());
        assert(l.1.skip(0) =~= l.1);
        assert(cands =~= cands.drop_last().push(l));
    }
}

/// Narrowing by `p` and then by `q` is narrowing by `p + q`.
proof fn lemma_reduce_compose(cands: Seq<(Sel, Seq<char>)>, p: Seq<char>, q: Seq<char>)
    ensures
        narrowed(narrowed(cands, p), q) == narrowed(cands, p + q),
    decreases cands.len(),
{
    if cands.len() > 0 {
        let rest = cands.drop_last();
        let l = cands.last();
        lemma_reduce_compose(rest, p, q);
        let inner = narrowed(cands, p);
        if is_prefix(p, l.1) {
            let t = l.1.skip(p.len() as int);
            assert(inner == narrowed(rest, p) + seq![(l.0, t)]);
            assert(inner.drop_last() =~= narrowed(rest, p));
            if is_prefix(q, t) {
                assert(l.1.subrange(0, (p + q).len() as int) =~= p + q) by {
                    assert(l.1.subrange(0, p.len() as int) == p);
                    assert(t.subrange(0, q.len() as int) == q);
                }
                assert(t.skip(q.len() as int) =~= l.1.skip((p + q).len() as int));
            } else if is_prefix(p + q, l.1) {
                let pq = p + q;
                assert(l.1.subrange(0, pq.len() as int) == pq);
                assert forall|k: int| 0 <= k < q.len() implies t.subrange(0, q.len() as int)[k]
                    == q[k] by {
                    assert(l.1.subrange(0, pq.len() as int)[p.len() + k] == pq[p.len() + k]);
                }
                assert(t.subrange(0, q.len() as int) =~= q);
            }
        } else {
            assert(inner =~= narrowed(rest, p));
            if is_prefix(p + q, l.1) {
                assert(l.1.subrange(0, p.len() as int) =~= p) by {
                    assert(l.1.subrange(0, (p + q).len() as int) == p + q);
                }
            }
        }
    }
}

/// Typing a word key by key narrows as the whole word does at once.
proof fn lemma_feed(cands: Seq<(Sel, Seq<char>)>, word: Seq<char>)
    ensures
        feed(cands, word) == narrowed(cands, word),
    decreases word.len(),
{
    if word.len() == 0 {
        lemma_reduce_empty(cands);
        assert(word =~= Seq::<char>::empty());
    } else {
        lemma_feed(narrowed(cands, seq![word[0]]), word.skip(1));
        lemma_reduce_compose(cands, seq![word[0]], word.skip(1));
        assert(seq![word[0]] + word.skip(1) =~= word);
    }
}

/// Narrowing prefix-free labels by one of them leaves its selection alone.
proof fn lemma_reduce_own_label(labels: Seq<Seq<char>>, sels: Seq<Sel>, i: int, m: int)
    requires
        prefix_free(labels),
        labels.len() == sels.len(),
        0 <= i < labels.len(),
        0 <= m <= labels.len(),
    ensures
        narrowed(zip_labels(labels, sels).take(m), labels[i]) == if m > i {
            seq![(sels[i], Seq::<char>::empty())]
        } else {
            Seq::empty()
        },
    decreases m,
{
    let z = zip_labels(labels, sels);
    if m > 0 {
        lemma_reduce_own_label(labels, sels, i, m - 1);
        assert(z.take(m).drop_last() =~= z.take(m - 1));
        assert(z.take(m).last() == (sels[m - 1], labels[m - 1]));
        if m - 1 == i {
            assert(labels[i].subrange(0, labels[i].len() as int) =~= labels[i]);
            assert(labels[i].skip(labels[i].len() as int) =~= Seq::<char>::empty());
        } else {
            assert(!is_prefix(labels[i], labels[m - 1]));
        }
    } else {
        assert(z.take(0) =~= Seq::<(Sel, Seq<char>)>::empty());
    }
}

/// Typing the keys of one of the generated labels, one at a time, from the
/// full set of candidates, ends with that label's selection alone, resolved.
/// Single keys never cancel, the abort key being longer.
pub proof fn lemma_label_resolves(t0: Trie, t: Trie, ks: Seq<char>, sels: Seq<Sel>, i: int)
    requires
        t0.below@.len() == 0,
        ks.len() > 0,
        ks.no_duplicates(),
        can_grow_by(t0, sels.len(), ks),
        grown_from(t0, t, sels.len(), ks),
        0 <= i < sels.len(),
    ensures
        feed(zip_labels(labels_of(t), sels), labels_of(t)[i]) == seq![(sels[i], Seq::<char>::empty())],
        outcome_of(feed(zip_labels(labels_of(t), sels), labels_of(t)[i])) == Outcome::Resolved(sels[i]),
        forall|c: char| seq![c] != abort_key(),
{
    lemma_grown_prefix_free(t0, t, sels.len(), ks);
    lemma_grown_label_count(t0, t, sels.len(), ks);
    let labels = labels_of(t);
    let z = zip_labels(labels, sels);
    lemma_feed(z, labels[i]);
    lemma_reduce_own_label(labels, sels, i, labels.len() as int);
    assert(z.take(labels.len() as int) =~= z);
    assert forall|c: char| seq![c] != abort_key() by {
        assert(seq![c].len() != abort_key().len());
    }
}

/// A candidate whose label starts with `p` stays, with `p` taken off.
proof fn lemma_narrowed_has(cands: Seq<(Sel, Seq<char>)>, p: Seq<char>, a: int)
    requires
        0 <= a < cands.len(),
        is_prefix(p, cands[a].1),
    ensures
        narrowed(cands, p).contains((cands[a].0, cands[a].1.skip(p.len() as int))),
    decreases cands.len(),
{
    let rest = cands.drop_last();
    let x = (cands[a].0, cands[a].1.skip(p.len() as int));
    if a < cands.len() - 1 {
        assert(rest[a] == cands[a]);
        lemma_narrowed_has(rest, p, a);
        let k = choose|k: int| 0 <= k < narrowed(rest, p).len() && narrowed(rest, p)[k] == x;
        assert(narrowed(cands, p)[k] == x);
    } else {
        let r = narrowed(cands, p);
        assert(r[r.len() - 1] == x);
    }
}

/// Two candidates whose labels start with `p` leave at least two.
proof fn lemma_narrowed_two(cands: Seq<(Sel, Seq<char>)>, p: Seq<char>, a: int, b: int)
    requires
        0 <= a < b < cands.len(),
        is_prefix(p, cands[a].1),
        is_prefix(p, cands[b].1),
    ensures
        narrowed(cands, p).len() >= 2,
    decreases cands.len(),
{
    let rest = cands.drop_last();
    assert(rest[a] == cands[a]);
    if b < cands.len() - 1 {
        assert(rest[b] == cands[b]);
        lemma_narrowed_two(rest, p, a, b);
    } else {
        lemma_narrowed_has(rest, p, a);
    }
}

/// Typing a non-empty proper prefix of a generated label, key by key, keeps
/// that label's selection, with the rest of its label, among at least two
/// candidates: the session is still active.
pub proof fn lemma_prefix_stays_active(
    t0: Trie,
    t: Trie,
    ks: Seq<char>,
    sels: Seq<Sel>,
    i: int,
    m: int,
)
    requires
        t0.below@.len() == 0,
        ks.len() >= 2,
        grown_from(t0, t, sels.len(), ks),
        0 <= i < sels.len(),
        1 <= m < labels_of(t)[i].len(),
    ensures
        feed(zip_labels(labels_of(t), sels), labels_of(t)[i].take(m)).contains(
            (sels[i], labels_of(t)[i].skip(m)),
        ),
        feed(zip_labels(labels_of(t), sels), labels_of(t)[i].take(m)).len() >= 2,
        outcome_of(feed(zip_labels(labels_of(t), sels), labels_of(t)[i].take(m)))
            == Outcome::Active,
{
    lemma_grown_label_count(t0, t, sels.len(), ks);
    let labels = labels_of(t);
    let z = zip_labels(labels, sels);
    let w = labels[i];
    let q = w.take(m);
    lemma_feed(z, q);
    assert(w.subrange(0, q.len() as int) =~= q);
    assert(z[i] == (sels[i], w));
    lemma_narrowed_has(z, q, i);
    assert(w.skip(q.len() as int) == w.skip(m));
    lemma_grown_shared_prefix(t0, t, sels.len(), ks, i, m);
    let i2 = choose|i2: int|
        0 <= i2 < labels.len() && i2 != i && is_prefix(labels[i].take(m), #[trigger] labels[i2]);
    assert(z[i2] == (sels[i2], labels[i2]));
    if i < i2 {
        lemma_narrowed_two(z, q, i, i2);
    } else {
        lemma_narrowed_two(z, q, i2, i);
    }
}

/// A key that no label starts with leaves no candidate: the session is
/// exhausted.
pub proof fn lemma_miss_exhausts(cands: Seq<(Sel, Seq<char>)>, c: char)
    requires
        forall|j: int| 0 <= j < cands.len() ==> (#[trigger] cands[j]).1.len() == 0 || cands[j].1[0] != c,
    ensures
        narrowed(cands, seq![c]) == Seq::<(Sel, Seq<char>)>::empty(),
        outcome_of(narrowed(cands, seq![c])) == Outcome::Exhausted,
    decreases cands.len(),
{
    if cands.len() > 0 {
        let l = cands.last();
        assert(cands[cands.len() - 1] == l);
        lemma_miss_exhausts(cands.drop_last(), c);
        if is_prefix(seq![c], l.1) {
            assert(l.1.subrange(0, 1)[0] == l.1[0]);
        }
    }
}

/// The text of an argument, empty where it was not given.
pub open spec fn arg_text(a: Option<String>) -> Seq<char> {
    match a {
        Some(s) => s@,
        None => Seq::empty(),
    }
}

/// The selections that the words write, in order, those that do not write
/// one left out.
pub open spec fn parsed_sels(ws: Seq<Seq<char>>) -> Seq<Sel>
    decreases ws.len(),
{
    if ws.len() == 0 {
        Seq::empty()
    } else {
        parsed_sels(ws.drop_last()) + match sel_of(ws.last()) {
            Some(sel) => seq![sel],
            None => Seq::empty(),
        }
    }
}

/// The characters of `s`, in order.
fn chars_of(s: &str) -> (r: Vec<char>)
    ensures
        r@ == s@,
{
    let n = s.unicode_len();
    let mut r: Vec<char> = Vec::new();
    let mut i: usize = 0;
    while i < n
        invariant
            n == s@.len(),
            i <= n,
            r@ == s@.take(i as int),
        decreases n - i,
    {
        r.push(s.get_char(i));
        assert(r@ =~= s@.take(i + 1));
        i = i + 1;
    }
    assert(s@.take(n as int) =~= s@);
    r
}

/// Whether `p` is a prefix of `s`.
fn starts_with(s: &str, p: &str) -> (r: bool)
    ensures
        r == is_prefix(p@, s@),
{
    let n = p.unicode_len();
    if n > s.unicode_len() {
        return false;
    }
    let mut i: usize = 0;
    while i < n
        invariant
            n == p@.len(),
            n <= s@.len(),
            i <= n,
            forall|j: int| 0 <= j < i ==> s@[j] == p@[j],
        decreases n - i,
    {
        if s.get_char(i) != p.get_char(i) {
            assert(s@.subrange(0, n as int)[i as int] != p@[i as int]);
            return false;
        }
        i = i + 1;
    }
    assert(s@.subrange(0, n as int) =~= p@);
    true
}

impl ReplaceRange {
    pub fn new(sel: Sel, label: String) -> (r: ReplaceRange)
        ensures
            r.sel == sel,
            r.label@ == label@,
    {
        ReplaceRange { sel, label }
    }
}

impl Response {
    /// Where the session stands after this response.
    pub fn outcome(&self) -> (r: Outcome)
        ensures
            *self is Cleanup ==> r == Outcome::Cancelled,
            *self matches Response::LabelsGenerated { replace_ranges } ==> r == outcome_of(
                range_views(replace_ranges@),
            ),
            *self matches Response::Reduced { replace_ranges } ==> r == outcome_of(
                range_views(replace_ranges@),
            ),
    {
        let replace_ranges = match self {
            Response::Cleanup => {
                return Outcome::Cancelled;
            },
            Response::LabelsGenerated { replace_ranges } => replace_ranges,
            Response::Reduced { replace_ranges } => replace_ranges,
        };
        if replace_ranges.len() == 0 {
            Outcome::Exhausted
        } else if replace_ranges.len() == 1 {
            Outcome::Resolved(replace_ranges[0].sel)
        } else {
            Outcome::Active
        }
    }
}

impl App {
    /// Reads the arguments: the keyset as its characters, the selections
    /// and labels as words, selections that do not parse left out.
    pub fn new(cli: Cli) -> (r: App)
        ensures
            r.keyset@ == arg_text(cli.keyset),
            r.sels@ == parsed_sels(words(arg_text(cli.sels))),
            views(r.labels@) == words(arg_text(cli.labels)),
            r.key == cli.key,
    {
        let keyset = match &cli.keyset {
            Some(k) => chars_of(k.as_str()),
            None => Vec::new(),
        };
        let sels_text = match &cli.sels {
            Some(s) => split_whitespace(s.as_str()),
            None => split_whitespace(""),
        };
        proof {
            reveal_strlit("");
        }
        let mut sels: Vec<Sel> = Vec::new();
        let mut i: usize = 0;
        while i < sels_text.len()
            invariant
                i <= sels_text@.len(),
                views(sels_text@) == words(arg_text(cli.sels)),
                sels@ == parsed_sels(views(sels_text@).take(i as int)),
            decreases sels_text@.len() - i,
        {
            let ghost w = views(sels_text@);
            assert(w.take(i + 1).drop_last() =~= w.take(i as int));
            assert(w.take(i + 1).last() == sels_text@[i as int]@);
            match Sel::parse(sels_text[i].as_str()) {
                Ok(sel) => {
                    sels.push(sel);
                    assert(sels@ =~= parsed_sels(w.take(i + 1)));
                },
                Err(()) => {
                    assert(sels@ =~= parsed_sels(w.take(i + 1)));
                },
            }
            i = i + 1;
        }
        assert(views(sels_text@).take(sels_text@.len() as int) =~= views(sels_text@));
        let labels = match &cli.labels {
            Some(l) => split_whitespace(l.as_str()),
            None => split_whitespace(""),
        };
        App { keyset, sels, labels, key: cli.key }
    }

    /// Labels the selections, in order, with the labels of a tree grown once
    /// per selection over `keyset`.
    pub fn generate_labels(sels: Vec<Sel>, keyset: Vec<char>) -> (r: Result<Response, ConfigError>)
        ensures
            r is Err <==> keyset@.len() == 0 || (keyset@.len() == 1 && sels@.len() >= 2),
            r is Err ==> r == Err::<Response, ConfigError>(config_error(keyset@)),
            r is Ok ==> exists|t0: Trie, t: Trie|
                {
                    &&& t0.below@.len() == 0
                    &&& grown_from(t0, t, sels@.len(), keyset@)
                    &&& labels_of(t).len() == sels@.len()
                    &&& r->Ok_0 matches Response::LabelsGenerated { replace_ranges }
                        && range_views(replace_ranges@) == zip_labels(labels_of(t), sels@)
                },
    {
        let mut trie = Trie::default();
        let ghost t0 = trie;
        match trie.grow_repeatedly(sels.len(), keyset.as_slice()) {
            Err(e) => {
                return Err(e);
            },
            Ok(()) => {},
        }
        let labels = trie.labels();
        let mut replace_ranges: Vec<ReplaceRange> = Vec::new();
        let n = sels.len();
        let mut i: usize = 0;
        while i < n
            invariant
                n == sels@.len(),
                n == labels@.len(),
                i <= n,
                views(labels@) == labels_of(trie),
                range_views(replace_ranges@) == zip_labels(labels_of(trie), sels@).take(i as int),
            decreases n - i,
        {
            let ghost before = replace_ranges@;
            replace_ranges.push(ReplaceRange::new(sels[i], labels[i].clone()));
            proof {
                assert(views(labels@)[i as int] == labels@[i as int]@);
                assert(range_views(replace_ranges@) =~= range_views(before).push(
                    (sels@[i as int], labels@[i as int]@),
                ));
                assert(range_views(replace_ranges@) =~= zip_labels(labels_of(trie), sels@).take(
                    i + 1,
                ));
            }
            i = i + 1;
        }
        assert(zip_labels(labels_of(trie), sels@).take(n as int) =~= zip_labels(
            labels_of(trie),
            sels@,
        ));
        Ok(Response::LabelsGenerated { replace_ranges })
    }

    /// Narrows the labelled selections by one typed key: the abort key
    /// cancels; any other keeps the selections whose label starts with it,
    /// with the key taken off the label.
    pub fn reduce(sels: Vec<Sel>, labels: Vec<String>, key: String) -> (r: Response)
        ensures
            key@ == abort_key() ==> r is Cleanup,
            key@ != abort_key() ==> (r matches Response::Reduced { replace_ranges }
                && range_views(replace_ranges@) == narrowed(
                zip_labels(views(labels@), sels@),
                key@,
            )),
    {
        let esc = "<esc>";
        proof {
            reveal_strlit("<esc>");
        }
        let ks = key.as_str();
        if ks.unicode_len() == esc.unicode_len() && starts_with(ks, esc) {
            assert(esc@ =~= abort_key());
            assert(key@ =~= key@.subrange(0, 5));
            return Response::Cleanup;
        }
        proof {
            if key@ == abort_key() {
                assert(key@.subrange(0, 5) =~= esc@);
            }
        }
        let ghost cands = zip_labels(views(labels@), sels@);
        let n = if sels.len() < labels.len() {
            sels.len()
        } else {
            labels.len()
        };
        let mut replace_ranges: Vec<ReplaceRange> = Vec::new();
        let mut i: usize = 0;
        while i < n
            invariant
                n <= sels@.len(),
                n <= labels@.len(),
                cands.len() == n,
                cands == zip_labels(views(labels@), sels@),
                ks@ == key@,
                i <= n,
                range_views(replace_ranges@) == narrowed(cands.take(i as int), key@),
            decreases n - i,
        {
            let ghost before = replace_ranges@;
            let label = labels[i].as_str();
            assert(cands.take(i + 1).drop_last() =~= cands.take(i as int));
            assert(cands[i as int] == (sels@[i as int], label@));
            if starts_with(label, ks) {
                let klen = ks.unicode_len();
                let llen = label.unicode_len();
                let rest = label.substring_char(klen, llen).to_owned();
                assert(rest@ =~= label@.skip(key@.len() as int));
                replace_ranges.push(ReplaceRange::new(sels[i], rest));
                assert(range_views(replace_ranges@) =~= range_views(before).push(
                    (sels@[i as int], label@.skip(key@.len() as int)),
                ));
            } else {
                assert(range_views(replace_ranges@) =~= range_views(before));
            }
            assert(cands.take(i + 1).last() == cands[i as int]);
            assert(narrowed(cands.take(i + 1), key@) =~= range_views(replace_ranges@));
            i = i + 1;
        }
        assert(cands.take(n as int) =~= cands);
        Response::Reduced { replace_ranges }
    }

    /// Makes labels when no key was typed, else narrows the labels by it.
    pub fn process(self) -> (r: Result<Response, ConfigError>)
        ensures
            self.key is None ==> (r is Err <==> self.keyset@.len() == 0 || (self.keyset@.len()
                == 1 && self.sels@.len() >= 2)),
            self.key is None ==> (r is Err ==> r == Err::<Response, ConfigError>(
                config_error(self.keyset@),
            )),
            self.key is None ==> (r is Ok ==> exists|t0: Trie, t: Trie|
                {
                    &&& t0.below@.len() == 0
                    &&& grown_from(t0, t, self.sels@.len(), self.keyset@)
                    &&& labels_of(t).len() == self.sels@.len()
                    &&& r->Ok_0 matches Response::LabelsGenerated { replace_ranges }
                        && range_views(replace_ranges@) == zip_labels(labels_of(t), self.sels@)
                }),
            self.key is Some ==> r is Ok,
            self.key is Some && self.key->0@ == abort_key() ==> r matches Ok(Response::Cleanup),
            self.key is Some && self.key->0@ != abort_key() ==> (r matches Ok(
                Response::Reduced { replace_ranges },
            ) && range_views(replace_ranges@) == narrowed(
                zip_labels(views(self.labels@), self.sels@),
                self.key->0@,
            )),
    {
        match self.key {
            None => App::generate_labels(self.sels, self.keyset),
            Some(key) => Ok(App::reduce(self.sels, self.labels, key)),
        }
    }
}

} // verus!
