//! What `kubectl` lists, and where `kubectl` is looked for.

use vstd::prelude::*;
use vstd::relations;
use vstd::slice::slice_subrange;
use vstd::utf8;

use crate::config;
use crate::order::SortKey;
use crate::order;
use crate::text;

verus! {

/// A reason for which the kube contexts are not known.
#[derive(Debug)]
pub enum KubeError {
    /// `kubectl` failed, and said so much about it.
    Failed { report: String },
    /// `kubectl` listed no context.
    NoContexts,
}

/// The mathematical counterpart of [`KubeError`].
pub enum KubeErrorView {
    Failed { report: Seq<char> },
    NoContexts,
}

impl View for KubeError {
    type V = KubeErrorView;

    open spec fn view(&self) -> KubeErrorView {
        match self {
            KubeError::Failed { report } => KubeErrorView::Failed { report: report@ },
            KubeError::NoContexts => KubeErrorView::NoContexts,
        }
    }
}

impl KubeErrorView {
    /// The sentence that reports the error.
    pub open spec fn sentence(self) -> Seq<char> {
        match self {
            KubeErrorView::Failed { report } => "kubectl config get-contexts failed: "@ + report,
            KubeErrorView::NoContexts => "kubectl did not return any kube contexts"@,
        }
    }
}

/// The directories in which `kubectl` is looked for besides those of the search path.
pub open spec fn usual_directories() -> Seq<Seq<char>> {
    seq!["/opt/homebrew/bin"@, "/usr/local/bin"@, "/usr/bin"@, "/bin"@]
}

impl KubeError {
    /// The sentence that reports the error.
    pub fn message(&self) -> (r: String)
        ensures
            r@ == self@.sentence(),
    {
        match self {
            KubeError::Failed { report } => "kubectl config get-contexts failed: ".to_owned().concat(
                report.as_str(),
            ),
            KubeError::NoContexts => "kubectl did not return any kube contexts".to_owned(),
        }
    }
}

/// The parts of a text between its line feeds.
pub open spec fn rows(s: Seq<char>) -> Seq<Seq<char>>
    decreases s.len(),
{
    match text::find_char(s, '\n') {
        None => seq![s],
        Some(i) => {
            proof {
                text::lemma_find_char_fits(s, '\n');
            }
            seq![s.take(i)] + rows(s.skip(i + 1))
        },
    }
}

/// Whether the text is what one of the rows holds between whitespace, and is not empty.
pub open spec fn listed_in(rows: Seq<Seq<char>>, context: Seq<char>) -> bool {
    context.len() > 0 && exists|i: int|
        0 <= i < rows.len() && text::trim(#[trigger] rows[i]) == context
}

/// Whether texts rise, so that none stands twice.
pub open spec fn rising(texts: Seq<Seq<char>>) -> bool {
    forall|i: int, j: int|
        0 <= i < j < texts.len() ==> order::text_lt(#[trigger] texts[i], #[trigger] texts[j])
}

/// What the rows of a text hold between whitespace, without the empty ones.
fn visible_rows(listing: &str) -> (r: Vec<String>)
    ensures
        forall|t: Seq<char>| #[trigger]
            config::texts_view(r@).contains(t) <==> listed_in(rows(listing@), t),
{
    let all = text::chars_of(listing);
    let n: usize = all.len();
    let mut r: Vec<String> = Vec::new();
    let mut start: usize = 0;
    let mut more = true;
    let ghost mut done: Seq<Seq<char>> = seq![];
    assert(listing@.skip(0) =~= listing@);
    assert(seq![] + rows(listing@) =~= rows(listing@));
    while more
        invariant
            n == all@.len(),
            all@ == listing@,
            start <= n,
            rows(listing@) == done + (if more {
                rows(listing@.skip(start as int))
            } else {
                seq![]
            }),
            forall|t: Seq<char>| #[trigger]
                config::texts_view(r@).contains(t) <==> listed_in(done, t),
        decreases
            (if more {
                1int
            } else {
                0int
            }),
            n - start,
    {
        let ghost here = listing@.skip(start as int);
        let rest = slice_subrange(all.as_slice(), start, n);
        assert(rest@ =~= here);
        let end = text::index_of(rest, '\n');
        let length: usize = match end {
            Some(i) => i,
            None => rest.len(),
        };
        let row = slice_subrange(rest, 0, length);
        let ghost line = row@;
        assert(line =~= rows(here)[0]);
        let (a, b) = text::trim_bounds(row);
        let ghost before = r@;
        if a < b {
            let visible = text::string_of(slice_subrange(row, a, b));
            r.push(visible);
        }
        proof {
            let longer = done.push(line);
            assert forall|t: Seq<char>| #[trigger]
                config::texts_view(r@).contains(t) <==> listed_in(longer, t) by {
                let old_texts = config::texts_view(before);
                let new_texts = config::texts_view(r@);
                assert(a < b ==> new_texts =~= old_texts.push(text::trim(line)));
                assert(old_texts.contains(t) <==> listed_in(done, t));
                if new_texts.contains(t) {
                    let k = choose|k: int| 0 <= k < new_texts.len() && new_texts[k] == t;
                    if k < old_texts.len() {
                        assert(old_texts[k] == t);
                        let m = choose|m: int|
                            0 <= m < done.len() && text::trim(#[trigger] done[m]) == t;
                        assert(longer[m] == done[m]);
                    } else {
                        assert(longer[done.len() as int] == line);
                    }
                }
                if listed_in(longer, t) {
                    let m = choose|m: int|
                        0 <= m < longer.len() && text::trim(#[trigger] longer[m]) == t;
                    if m < done.len() {
                        assert(done[m] == longer[m]);
                        let k = choose|k: int| 0 <= k < old_texts.len() && old_texts[k] == t;
                        assert(new_texts[k] == t);
                    } else {
                        assert(new_texts[old_texts.len() as int] == t);
                    }
                }
            }
            match end {
                None => {
                    assert(done + rows(here) =~= longer + seq![]);
                },
                Some(i) => {
                    assert(here.skip(i + 1) =~= listing@.skip(start + i + 1));
                    assert(done + rows(here) =~= longer + rows(here.skip(i + 1)));
                },
            }
            done = longer;
        }
        match end {
            None => {
                more = false;
            },
            Some(i) => {
                start = start + i + 1;
            },
        }
    }
    assert(done + Seq::<Seq<char>>::empty() =~= done);
    r
}

/// Whether a result holds the kube contexts of a listing, one in a row, in rising order and
/// each once, or says that there are none.
pub open spec fn lists_contexts(r: Result<Vec<String>, KubeError>, listing: Seq<char>) -> bool {
    match r {
        Ok(contexts) => {
            &&& rising(config::texts_view(contexts@))
            &&& contexts@.len() > 0
            &&& forall|t: Seq<char>| #[trigger]
                config::texts_view(contexts@).contains(t) <==> listed_in(rows(listing), t)
        },
        Err(e) => e@ == KubeErrorView::NoContexts && forall|t: Seq<char>|
            !#[trigger] listed_in(rows(listing), t),
    }
}

/// The kube contexts that a listing holds, one in a row: in rising order, and each once.
pub fn contexts_from_listing(listing: &str) -> (r: Result<Vec<String>, KubeError>)
    ensures
        lists_contexts(r, listing@),
{
    let found = visible_rows(listing);
    let ghost found_texts = config::texts_view(found@);
    let order = order::distinct_order(&found);
    let n: usize = order.len();
    let mut r: Vec<String> = Vec::new();
    for i in 0..n
        invariant
            n == order@.len(),
            order::is_distinct_order(found@, order@),
            r@.len() == i,
            forall|k: int| 0 <= k < i ==> (#[trigger] r@[k])@ == found@[order@[k] as int]@,
    {
        assert(order::is_first_of_ties(found@, order@[i as int]));
        r.push(found[order[i]].clone());
    }
    proof {
        order::text_order();
        let le = |a: Seq<char>, b: Seq<char>| order::text_le(a, b);
        let texts = config::texts_view(r@);
        assert forall|p: int, q: int| 0 <= p < q < texts.len() implies order::text_lt(
            #[trigger] texts[p],
            #[trigger] texts[q],
        ) by {
            assert(!found@[order@[q] as int].sorts_le(&found@[order@[p] as int]));
            assert(texts[p] == r@[p]@ && texts[q] == r@[q]@);
            assert(!le(texts[q], texts[p]));
            assert(le(texts[p], texts[q]));
        }
        assert forall|t: Seq<char>| #[trigger] texts.contains(t) <==> listed_in(
            rows(listing@),
            t,
        ) by {
            assert(found_texts.contains(t) <==> listed_in(rows(listing@), t));
            if texts.contains(t) {
                let k = choose|k: int| 0 <= k < texts.len() && texts[k] == t;
                assert(r@[k]@ == t);
                assert(order::is_first_of_ties(found@, order@[k]));
                assert(found_texts[order@[k] as int] == t);
            }
            if found_texts.contains(t) {
                let p = choose|p: int| 0 <= p < found_texts.len() && found_texts[p] == t;
                assert(order::represented(found@, order@, found@[p]));
                let k = choose|k: int|
                    0 <= k < order@.len() && order::ties(
                        found@[(#[trigger] order@[k]) as int],
                        found@[p],
                    );
                let other = found@[order@[k] as int]@;
                assert(le(other, t) && le(t, other));
                assert(r@[k]@ == other);
                assert(texts[k] == t);
            }
        }
    }
    if r.len() == 0 {
        assert forall|t: Seq<char>| !#[trigger] listed_in(rows(listing@), t) by {
            assert(!config::texts_view(r@).contains(t));
        }
        return Err(KubeError::NoContexts);
    }
    Ok(r)
}

/// Whether a result is what `kubectl` says: the kube contexts that it lists, or its complaint.
pub open spec fn reports_contexts(
    r: Result<Vec<String>, KubeError>,
    success: bool,
    output: Seq<char>,
    complaint: Seq<char>,
) -> bool {
    if success {
        lists_contexts(r, output)
    } else {
        r matches Err(e) && e@ == (KubeErrorView::Failed { report: text::trim(complaint) })
    }
}

/// The kube contexts, where `kubectl` has printed `output` and `complaint`.
pub fn contexts_from_output(success: bool, output: &str, complaint: &str) -> (r: Result<
    Vec<String>,
    KubeError,
>)
    ensures
        reports_contexts(r, success, output@, complaint@),
{
    if success {
        contexts_from_listing(output)
    } else {
        let v = text::chars_of(complaint);
        let (a, b) = text::trim_bounds(v.as_slice());
        Err(KubeError::Failed { report: text::string_of(slice_subrange(v.as_slice(), a, b)) })
    }
}

/// What is left of bytes as text where those that are not valid UTF-8 are replaced.
pub uninterp spec fn lossy_text(bytes: Seq<u8>) -> Seq<char>;

/// `String::from_utf8_lossy`: the text that the bytes encode, if they are valid UTF-8. What
/// takes the place of others is left unsaid, but for the name [`lossy_text`].
#[verifier::external_body]
fn text_lossy(bytes: &[u8]) -> (r: String)
    ensures
        r@ == lossy_text(bytes@),
        utf8::valid_utf8(bytes@) ==> utf8::encode_utf8(r@) == bytes@,
{
    String::from_utf8_lossy(bytes).into_owned()
}

/// The kube contexts, where `kubectl` has printed the bytes: those that its text lists.
pub fn kube_contexts(success: bool, stdout: &[u8], stderr: &[u8]) -> (r: Result<
    Vec<String>,
    KubeError,
>)
    ensures
        reports_contexts(r, success, lossy_text(stdout@), lossy_text(stderr@)),
        utf8::valid_utf8(stdout@) && utf8::valid_utf8(stderr@) ==> reports_contexts(
            r,
            success,
            utf8::decode_utf8(stdout@),
            utf8::decode_utf8(stderr@),
        ),
{
    let output = text_lossy(stdout);
    let complaint = text_lossy(stderr);
    proof {
        utf8::encode_utf8_decode_utf8(output@);
        utf8::encode_utf8_decode_utf8(complaint@);
    }
    contexts_from_output(success, output.as_str(), complaint.as_str())
}

/// The directories in which `kubectl` is looked for besides those of the search path.
pub fn kubectl_directories() -> (r: Vec<String>)
    ensures
        config::texts_view(r@) == usual_directories(),
{
    let mut r: Vec<String> = Vec::new();
    r.push("/opt/homebrew/bin".to_owned());
    r.push("/usr/local/bin".to_owned());
    r.push("/usr/bin".to_owned());
    r.push("/bin".to_owned());
    assert(config::texts_view(r@) =~= usual_directories());
    r
}

/// A component of a path: how components of its kind rank, and its bytes.
#[derive(Debug)]
pub struct PathPart {
    pub rank: u8,
    pub name: Vec<u8>,
}

/// A directory by the components of its path.
#[derive(Debug)]
pub struct Directory {
    pub parts: Vec<PathPart>,
}

impl View for PathPart {
    type V = (u8, Seq<u8>);

    open spec fn view(&self) -> (u8, Seq<u8>) {
        (self.rank, self.name@)
    }
}

impl View for Directory {
    type V = Seq<(u8, Seq<u8>)>;

    open spec fn view(&self) -> Seq<(u8, Seq<u8>)> {
        self.parts@.map_values(|p: PathPart| p@)
    }
}

/// The order of components: by rank, then by bytes in dictionary order.
pub open spec fn part_le() -> spec_fn((u8, Seq<u8>), (u8, Seq<u8>)) -> bool {
    |a: (u8, Seq<u8>), b: (u8, Seq<u8>)|
        a.0 < b.0 || (a.0 == b.0 && order::lex_le(a.1, b.1, order::byte_le()))
}

/// The order of directories: that of their components in dictionary order.
pub open spec fn directory_le(a: Seq<(u8, Seq<u8>)>, b: Seq<(u8, Seq<u8>)>) -> bool {
    order::lex_le(a, b, part_le())
}

/// Directories are totally ordered.
pub proof fn directory_order()
    ensures
        relations::total_ordering(
            |a: Seq<(u8, Seq<u8>)>, b: Seq<(u8, Seq<u8>)>| directory_le(a, b),
        ),
{
    assert(relations::total_ordering(order::byte_le()));
    order::lex_is_total_ordering(order::byte_le());
    let names = |a: Seq<u8>, b: Seq<u8>| order::lex_le(a, b, order::byte_le());
    assert(relations::total_ordering(names));
    let r = part_le();
    assert forall|a: (u8, Seq<u8>)| #[trigger] r(a, a) by {
        assert(names(a.1, a.1));
    }
    assert forall|a: (u8, Seq<u8>), b: (u8, Seq<u8>)| #[trigger]
        r(a, b) && #[trigger] r(b, a) implies a == b by {
        assert(names(a.1, b.1) && names(b.1, a.1));
    }
    assert forall|a: (u8, Seq<u8>), b: (u8, Seq<u8>), c: (u8, Seq<u8>)| #[trigger]
        r(a, b) && #[trigger] r(b, c) implies r(a, c) by {
        if a.0 == b.0 && b.0 == c.0 {
            assert(names(a.1, b.1) && names(b.1, c.1));
            assert(names(a.1, c.1));
        }
    }
    assert forall|a: (u8, Seq<u8>), b: (u8, Seq<u8>)| #[trigger] r(a, b) || #[trigger] r(b, a) by {
        assert(names(a.1, b.1) || names(b.1, a.1));
    }
    assert(relations::reflexive(r));
    assert(relations::antisymmetric(r));
    assert(relations::transitive(r));
    assert(relations::strongly_connected(r));
    order::lex_is_total_ordering(part_le());
    assert((|a: Seq<(u8, Seq<u8>)>, b: Seq<(u8, Seq<u8>)>| directory_le(a, b)) =~= (|
        a: Seq<(u8, Seq<u8>)>,
        b: Seq<(u8, Seq<u8>)>,
    | order::lex_le(a, b, part_le())));
}

/// Whether the bytes `a` come before `b` in dictionary order, or equal them.
fn bytes_before(a: &Vec<u8>, b: &Vec<u8>) -> (r: bool)
    ensures
        r == order::lex_le(a@, b@, order::byte_le()),
{
    let mut i: usize = 0;
    assert(a@.skip(0) =~= a@);
    assert(b@.skip(0) =~= b@);
    while i < a.len() && i < b.len()
        invariant
            i <= a@.len(),
            i <= b@.len(),
            order::lex_le(a@, b@, order::byte_le()) == order::lex_le(
                a@.skip(i as int),
                b@.skip(i as int),
                order::byte_le(),
            ),
        decreases a@.len() - i,
    {
        if a[i] != b[i] {
            return a[i] <= b[i];
        }
        assert(a@.skip(i as int).drop_first() =~= a@.skip(i + 1));
        assert(b@.skip(i as int).drop_first() =~= b@.skip(i + 1));
        i = i + 1;
    }
    i == a.len()
}

/// Whether two sequences of bytes are the same.
fn same_bytes(a: &Vec<u8>, b: &Vec<u8>) -> (r: bool)
    ensures
        r == (a@ == b@),
{
    if a.len() != b.len() {
        return false;
    }
    let n: usize = a.len();
    for i in 0..n
        invariant
            n == a@.len(),
            n == b@.len(),
            forall|j: int| 0 <= j < i ==> a@[j] == b@[j],
    {
        if a[i] != b[i] {
            return false;
        }
    }
    assert(a@ =~= b@);
    true
}

impl SortKey for Directory {
    open spec fn sorts_le(&self, other: &Self) -> bool {
        directory_le(self@, other@)
    }

    proof fn sorts_total(a: &Self, b: &Self) {
        directory_order();
        let le = |a: Seq<(u8, Seq<u8>)>, b: Seq<(u8, Seq<u8>)>| directory_le(a, b);
        assert(le(a@, b@) || le(b@, a@));
    }

    proof fn sorts_transitive(a: &Self, b: &Self, c: &Self) {
        directory_order();
        let le = |a: Seq<(u8, Seq<u8>)>, b: Seq<(u8, Seq<u8>)>| directory_le(a, b);
        assert(le(a@, b@) && le(b@, c@));
        assert(le(a@, c@));
    }

    fn sorts_before(&self, other: &Self) -> (r: bool) {
        let mut i: usize = 0;
        assert(self@.skip(0) =~= self@);
        assert(other@.skip(0) =~= other@);
        while i < self.parts.len() && i < other.parts.len()
            invariant
                i <= self@.len(),
                i <= other@.len(),
                self@.len() == self.parts@.len(),
                other@.len() == other.parts@.len(),
                directory_le(self@, other@) == directory_le(
                    self@.skip(i as int),
                    other@.skip(i as int),
                ),
            decreases self@.len() - i,
        {
            let a = &self.parts[i];
            let b = &other.parts[i];
            assert(self@.skip(i as int)[0] == a@);
            assert(other@.skip(i as int)[0] == b@);
            if a.rank != b.rank {
                return a.rank < b.rank;
            }
            if !same_bytes(&a.name, &b.name) {
                return bytes_before(&a.name, &b.name);
            }
            assert(self@.skip(i as int).drop_first() =~= self@.skip(i + 1));
            assert(other@.skip(i as int).drop_first() =~= other@.skip(i + 1));
            i = i + 1;
        }
        i == self.parts.len()
    }
}

/// The positions of directories in the order in which they are searched: by rising directory,
/// and each directory once, where it first stands.
pub fn search_order(directories: &Vec<Directory>) -> (order: Vec<usize>)
    ensures
        order::is_distinct_order(directories@, order@),
{
    order::distinct_order(directories)
}

/// Directories that may stand in either order are the same.
pub proof fn tied_directories_are_the_same(a: Directory, b: Directory)
    requires
        order::ties(a, b),
    ensures
        a@ == b@,
{
    directory_order();
    let le = |a: Seq<(u8, Seq<u8>)>, b: Seq<(u8, Seq<u8>)>| directory_le(a, b);
    assert(le(a@, b@) && le(b@, a@));
}

} // verus!
