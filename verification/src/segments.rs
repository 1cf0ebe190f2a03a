use vstd::prelude::*;
use crate::document::DocumentId;

verus! {

/// The kind of a document region a term was found in.
#[derive(PartialEq, Eq, Structural, Copy, Clone, PartialOrd, Ord, Hash, Debug)]
pub enum SegmentKind {
    Filename,
    Title,
    Authors,
    Body,
    Epigraph,
}

/// The stable ordinal of a segment kind.
pub open spec fn kind_ordinal(k: SegmentKind) -> nat {
    match k {
        SegmentKind::Filename => 0,
        SegmentKind::Title => 1,
        SegmentKind::Authors => 2,
        SegmentKind::Body => 3,
        SegmentKind::Epigraph => 4,
    }
}

/// The weight of a segment kind, in tenths, so that weighting stays exact.
pub open spec fn kind_weight_tenths(k: SegmentKind) -> nat {
    match k {
        SegmentKind::Filename => 2,
        SegmentKind::Title => 4,
        SegmentKind::Authors => 1,
        SegmentKind::Body => 2,
        SegmentKind::Epigraph => 1,
    }
}

impl SegmentKind {
    /// Every segment kind, in ordinal order.
    pub fn values() -> (r: Vec<SegmentKind>)
        ensures
            r@ == seq![
                SegmentKind::Filename,
                SegmentKind::Title,
                SegmentKind::Authors,
                SegmentKind::Body,
                SegmentKind::Epigraph,
            ],
    {
        let mut v: Vec<SegmentKind> = Vec::new();
        v.push(SegmentKind::Filename);
        v.push(SegmentKind::Title);
        v.push(SegmentKind::Authors);
        v.push(SegmentKind::Body);
        v.push(SegmentKind::Epigraph);
        proof {
            assert(v@ =~= seq![
                SegmentKind::Filename,
                SegmentKind::Title,
                SegmentKind::Authors,
                SegmentKind::Body,
                SegmentKind::Epigraph,
            ]);
        }
        v
    }

    /// The stable ordinal of this kind.
    pub fn ordinal(&self) -> (r: u8)
        ensures
            r as nat == kind_ordinal(*self),
    {
        match self {
            SegmentKind::Filename => 0,
            SegmentKind::Title => 1,
            SegmentKind::Authors => 2,
            SegmentKind::Body => 3,
            SegmentKind::Epigraph => 4,
        }
    }

    /// The weight of this kind in tenths: filename and body weigh two
    /// tenths, the title four, authors and epigraph one each.
    pub fn weight_tenths(&self) -> (r: u64)
        ensures
            r as nat == kind_weight_tenths(*self),
    {
        match self {
            SegmentKind::Filename => 2,
            SegmentKind::Title => 4,
            SegmentKind::Authors => 1,
            SegmentKind::Body => 2,
            SegmentKind::Epigraph => 1,
        }
    }
}

/// The text runs of a document, grouped by the kind of region they came
/// from.
#[derive(Debug)]
pub struct Segments {
    entries: Vec<(SegmentKind, Vec<String>)>,
}

/// The runs recorded in an entry list under `k`, in order of addition.
pub open spec fn seg_at(es: Seq<(SegmentKind, Vec<String>)>, k: SegmentKind) -> Seq<Seq<char>>
    decreases es.len(),
{
    if es.len() == 0 {
        Seq::empty()
    } else if es.last().0 == k {
        seg_at(es.drop_last(), k)
            + es.last().1@.map_values(|s: String| s@)
    } else {
        seg_at(es.drop_last(), k)
    }
}

impl Segments {
    /// The runs recorded for each segment kind.
    pub closed spec fn view(&self) -> Map<SegmentKind, Seq<Seq<char>>> {
        Map::new(
            |k: SegmentKind| seg_at(self.entries@, k).len() > 0,
            |k: SegmentKind| seg_at(self.entries@, k),
        )
    }

    pub closed spec fn wf(&self) -> bool {
        &&& forall|i: int, j: int|
            0 <= i < j < self.entries@.len() ==> (#[trigger] self.entries@[i]).0 != (
            #[trigger] self.entries@[j]).0
    }

    pub fn new() -> (r: Segments)
        ensures
            r.wf(),
            r@ == Map::<SegmentKind, Seq<Seq<char>>>::empty(),
            r.list().len() == 0,
    {
        let r = Segments { entries: Vec::new() };
        proof {
            assert(r@ =~~= Map::<SegmentKind, Seq<Seq<char>>>::empty());
        }
        r
    }

    /// Records one more text run under `segment_kind`.
    pub fn add(&mut self, segment_kind: SegmentKind, segment: String)
        requires
            old(self).wf(),
        ensures
            final(self).wf(),
            seg_at(final(self).list(), segment_kind) == seg_at(old(self).list(), segment_kind).push(
                segment@,
            ),
            forall|k: SegmentKind|
                k != segment_kind ==> seg_at(final(self).list(), k) == seg_at(old(self).list(), k),
    {
        let ghost es0 = self.entries@;
        let n = self.entries.len();
        let mut j: usize = 0;
        while j < n
            invariant
                self.entries@ == es0,
                es0 == old(self).entries@,
                forall|a: int, b: int| 0 <= a < b < es0.len() ==> (#[trigger] es0[a]).0 != (
                #[trigger] es0[b]).0,
                n == es0.len(),
                j <= n,
                forall|t: int| 0 <= t < j ==> (#[trigger] es0[t]).0 != segment_kind,
            decreases n - j,
        {
            if self.entries[j].0 == segment_kind {
                let mut run = crate::text::dup_strings(&self.entries[j].1);
                run.push(segment);
                proof {
                    assert(run@ == es0[j as int].1@.push(segment));
                }
                self.entries[j] = (segment_kind, run);
                proof {
                    let e = self.entries@[j as int];
                    assert(self.entries@ == es0.update(j as int, e));
                    assert(e.0 == es0[j as int].0);
                    lemma_seg_update(es0, j as int, e, segment_kind);
                    lemma_seg_push_run(es0, j as int, segment, segment_kind);
                    assert(seg_at(self.entries@, segment_kind) == es0[j as int].1@.push(
                        segment,
                    ).map_values(|s: String| s@));
                    lemma_seg_index(es0, j as int, segment_kind);
                    assert(seg_at(es0, segment_kind) == es0[j as int].1@.map_values(
                        |s: String| s@,
                    ));
                }
                return ;
            }
            j += 1;
        }
        let mut run: Vec<String> = Vec::new();
        run.push(segment);
        let ghost e = (segment_kind, run);
        self.entries.push((segment_kind, run));
        proof {
            assert(self.entries@.drop_last() =~= es0);
            assert forall|k: SegmentKind| true implies seg_at(self.entries@, k) == (if k
                == segment_kind {
                seg_at(es0, k).push(segment@)
            } else {
                seg_at(es0, k)
            }) by {
                if k == segment_kind {
                    assert(self.entries@.last().1@.map_values(|s: String| s@) =~= seq![segment@]);
                    assert(seg_at(es0, k) + seq![segment@] =~= seg_at(es0, k).push(segment@));
                } else {
                }
            }
            assert(forall|t: int| 0 <= t < es0.len() ==> self.entries@[t] == es0[t]);
        }
    }

    /// The entry list itself.
    pub closed spec fn list(&self) -> Seq<(SegmentKind, Vec<String>)> {
        self.entries@
    }

    /// The runs recorded under `segment_kind`, if any.
    pub fn get(&self, segment_kind: SegmentKind) -> (r: Option<&Vec<String>>)
        requires
            self.wf(),
        ensures
            r is Some ==> seg_at(self.list(), segment_kind) == r->Some_0@.map_values(
                |s: String| s@,
            ),
            r is None ==> seg_at(self.list(), segment_kind) == Seq::<Seq<char>>::empty(),
    {
        let n = self.entries.len();
        let mut j: usize = 0;
        while j < n
            invariant
                self.wf(),
                n == self.entries@.len(),
                j <= n,
                forall|t: int| 0 <= t < j ==> (#[trigger] self.entries@[t]).0 != segment_kind,
            decreases n - j,
        {
            if self.entries[j].0 == segment_kind {
                proof {
                    lemma_seg_index(self.entries@, j as int, segment_kind);
                }
                return Some(&self.entries[j].1);
            }
            j += 1;
        }
        proof {
            lemma_seg_absent(self.entries@, segment_kind);
        }
        None
    }

    /// The recorded entries, each kind once with its runs.
    pub fn iter(&self) -> (r: &Vec<(SegmentKind, Vec<String>)>)
        ensures
            r@ == self.list(),
    {
        &self.entries
    }
}

proof fn lemma_seg_absent(es: Seq<(SegmentKind, Vec<String>)>, k: SegmentKind)
    requires
        forall|i: int| 0 <= i < es.len() ==> (#[trigger] es[i]).0 != k,
    ensures
        seg_at(es, k) == Seq::<Seq<char>>::empty(),
    decreases es.len(),
{
    if es.len() > 0 {
        lemma_seg_absent(es.drop_last(), k);
    }
}

proof fn lemma_seg_index(es: Seq<(SegmentKind, Vec<String>)>, j: int, k: SegmentKind)
    requires
        forall|a: int, b: int| 0 <= a < b < es.len() ==> (#[trigger] es[a]).0 != (
        #[trigger] es[b]).0,
        0 <= j < es.len(),
        es[j].0 == k,
    ensures
        seg_at(es, k) == es[j].1@.map_values(|s: String| s@),
    decreases es.len(),
{
    if j == es.len() - 1 {
        assert(forall|i: int| 0 <= i < es.drop_last().len() ==> (#[trigger] es.drop_last()[i]).0
            != k);
        lemma_seg_absent(es.drop_last(), k);
        assert(seg_at(es, k) =~= es[j].1@.map_values(|s: String| s@));
    } else {
        assert(es.drop_last()[j] == es[j]);
        lemma_seg_index(es.drop_last(), j, k);
        assert(es.last().0 != k);
    }
}

proof fn lemma_seg_update(
    es: Seq<(SegmentKind, Vec<String>)>,
    j: int,
    e: (SegmentKind, Vec<String>),
    k: SegmentKind,
)
    requires
        forall|a: int, b: int| 0 <= a < b < es.len() ==> (#[trigger] es[a]).0 != (
        #[trigger] es[b]).0,
        0 <= j < es.len(),
        es[j].0 == k,
        e.0 == k,
    ensures
        forall|kk: SegmentKind|
            kk != k ==> seg_at(es.update(j, e), kk) == seg_at(es, kk),
        seg_at(es.update(j, e), k) == e.1@.map_values(|s: String| s@),
        forall|a: int, b: int|
            0 <= a < b < es.update(j, e).len() ==> (#[trigger] es.update(j, e)[a]).0 != (
            #[trigger] es.update(j, e)[b]).0,
    decreases es.len(),
{
    assert forall|kk: SegmentKind| kk != k implies seg_at(es.update(j, e), kk) == seg_at(
        es,
        kk,
    ) by {
        lemma_seg_update_other(es, j, e, kk);
    }
    lemma_seg_index(es.update(j, e), j, k);
}

proof fn lemma_seg_update_other(
    es: Seq<(SegmentKind, Vec<String>)>,
    j: int,
    e: (SegmentKind, Vec<String>),
    kk: SegmentKind,
)
    requires
        0 <= j < es.len(),
        es[j].0 != kk,
        e.0 != kk,
    ensures
        seg_at(es.update(j, e), kk) == seg_at(es, kk),
    decreases es.len(),
{
    if j == es.len() - 1 {
        assert(es.update(j, e).drop_last() =~= es.drop_last());
    } else {
        assert(es.update(j, e).drop_last() =~= es.drop_last().update(j, e));
        assert(es.drop_last()[j] == es[j]);
        lemma_seg_update_other(es.drop_last(), j, e, kk);
        assert(es.update(j, e).last() == es.last());
    }
}

proof fn lemma_seg_push_run(
    es: Seq<(SegmentKind, Vec<String>)>,
    j: int,
    segment: String,
    k: SegmentKind,
)
    requires
        forall|a: int, b: int| 0 <= a < b < es.len() ==> (#[trigger] es[a]).0 != (
        #[trigger] es[b]).0,
        0 <= j < es.len(),
        es[j].0 == k,
    ensures
        es[j].1@.push(segment).map_values(|s: String| s@) == es[j].1@.map_values(
            |s: String| s@,
        ).push(segment@),
{
    assert(es[j].1@.push(segment).map_values(|s: String| s@) =~= es[j].1@.map_values(
        |s: String| s@,
    ).push(segment@));
}

/// Where a term stood: the document and the kind of region within it.
#[derive(PartialEq, Eq, Structural, Copy, Clone, Hash, Debug)]
pub struct TermPosition {
    pub document: DocumentId,
    pub segment_kind: SegmentKind,
}

/// A segmenter hands back the text runs of a document grouped by region.
pub trait Segmenter {
    fn segment(self) -> Result<Segments, crate::doc_index::IndexError>;
}

/// The plain-text segmenter: the whole document text is one body run.
pub struct PlainTextSegmenter {
    pub contents: String,
}

impl PlainTextSegmenter {
    pub fn new(contents: String) -> (r: PlainTextSegmenter)
        ensures
            r.contents@ == contents@,
    {
        PlainTextSegmenter { contents }
    }
}

impl Segmenter for PlainTextSegmenter {
    fn segment(self) -> Result<Segments, crate::doc_index::IndexError> {
        let mut segments = Segments::new();
        segments.add(SegmentKind::Body, self.contents);
        Ok(segments)
    }
}

/// The fields of a structured book that the segmenters read: the title, the
/// authors' names, and the body paragraphs, already extracted as plain text.
#[derive(Debug)]
pub struct Book {
    pub title: String,
    pub authors: Vec<String>,
    pub paragraphs: Vec<String>,
}

/// Segments a structured book: its title as one title run, each author name
/// as one authors run, each body paragraph as one body run, and each path
/// component of the document's name as one filename run.
pub fn segment_book(book: Book, path_components: Vec<String>) -> (r: Segments)
    ensures
        r.wf(),
        seg_at(r.list(), SegmentKind::Title) == seq![book.title@],
        seg_at(r.list(), SegmentKind::Authors) == book.authors@.map_values(|s: String| s@),
        seg_at(r.list(), SegmentKind::Body) == book.paragraphs@.map_values(|s: String| s@),
        seg_at(r.list(), SegmentKind::Filename) == path_components@.map_values(|s: String| s@),
{
    let mut segments = Segments::new();
    proof {
        assert(seg_at(segments.list(), SegmentKind::Title) =~= Seq::<Seq<char>>::empty());
        assert(seg_at(segments.list(), SegmentKind::Authors) =~= Seq::<Seq<char>>::empty());
        assert(seg_at(segments.list(), SegmentKind::Body) =~= Seq::<Seq<char>>::empty());
        assert(seg_at(segments.list(), SegmentKind::Filename) =~= Seq::<Seq<char>>::empty());
    }
    segments.add(SegmentKind::Title, book.title);
    proof {
        assert(seg_at(segments.list(), SegmentKind::Title) =~= seq![book.title@]);
    }
    let authors = book.authors;
    let n = authors.len();
    let mut j: usize = 0;
    while j < n
        invariant
            segments.wf(),
            n == authors@.len(),
            j <= n,
            seg_at(segments.list(), SegmentKind::Title) == seq![book.title@],
            seg_at(segments.list(), SegmentKind::Authors) == authors@.take(j as int).map_values(
                |s: String| s@,
            ),
            seg_at(segments.list(), SegmentKind::Body) == Seq::<Seq<char>>::empty(),
            seg_at(segments.list(), SegmentKind::Filename) == Seq::<Seq<char>>::empty(),
        decreases n - j,
    {
        let a = authors[j].clone();
        segments.add(SegmentKind::Authors, a);
        proof {
            assert(authors@.take(j + 1).map_values(|s: String| s@) =~= authors@.take(
                j as int,
            ).map_values(|s: String| s@).push(authors@[j as int]@));
        }
        j += 1;
    }
    proof {
        assert(authors@.take(n as int) =~= authors@);
    }
    let paragraphs = book.paragraphs;
    let m = paragraphs.len();
    let mut t: usize = 0;
    while t < m
        invariant
            segments.wf(),
            m == paragraphs@.len(),
            t <= m,
            seg_at(segments.list(), SegmentKind::Title) == seq![book.title@],
            seg_at(segments.list(), SegmentKind::Authors) == authors@.map_values(|s: String| s@),
            seg_at(segments.list(), SegmentKind::Body) == paragraphs@.take(t as int).map_values(
                |s: String| s@,
            ),
            seg_at(segments.list(), SegmentKind::Filename) == Seq::<Seq<char>>::empty(),
        decreases m - t,
    {
        let p = paragraphs[t].clone();
        segments.add(SegmentKind::Body, p);
        proof {
            assert(paragraphs@.take(t + 1).map_values(|s: String| s@) =~= paragraphs@.take(
                t as int,
            ).map_values(|s: String| s@).push(paragraphs@[t as int]@));
        }
        t += 1;
    }
    proof {
        assert(paragraphs@.take(m as int) =~= paragraphs@);
    }
    let k = path_components.len();
    let mut u: usize = 0;
    while u < k
        invariant
            segments.wf(),
            k == path_components@.len(),
            u <= k,
            seg_at(segments.list(), SegmentKind::Title) == seq![book.title@],
            seg_at(segments.list(), SegmentKind::Authors) == authors@.map_values(|s: String| s@),
            seg_at(segments.list(), SegmentKind::Body) == paragraphs@.map_values(|s: String| s@),
            seg_at(segments.list(), SegmentKind::Filename) == path_components@.take(
                u as int,
            ).map_values(|s: String| s@),
        decreases k - u,
    {
        let c = path_components[u].clone();
        segments.add(SegmentKind::Filename, c);
        proof {
            assert(path_components@.take(u + 1).map_values(|s: String| s@) =~= path_components@
                .take(u as int).map_values(|s: String| s@).push(path_components@[u as int]@));
        }
        u += 1;
    }
    proof {
        assert(path_components@.take(k as int) =~= path_components@);
    }
    segments
}

} // verus!
