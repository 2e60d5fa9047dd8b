//! Laws of what surrounds the forwards: where the configuration lies, what `kubectl` lists, and
//! how errors are reported.

use vstd::prelude::*;

use crate::config;
use crate::config::ClusterView;
use crate::error::ErrorView;
use crate::kube;
use crate::kube::{KubeError, KubeErrorView};
use crate::laws::texts;
use crate::location;
use crate::location::{ConfigLocation, NoLocation};
use crate::order;
use crate::text;

verus! {

/// The configuration lies where the command line says, whatever else is set; without that where
/// the variable says; without either in its place under the home directory, or else the
/// profile; and nowhere if none of them is set.
pub proof fn configurations_are_looked_for_in_turn<P>(
    path: P,
    variable: Option<P>,
    home: Option<P>,
    profile: Option<P>,
)
    ensures
        location::located(Some(path), variable, home, profile) == Ok::<
            ConfigLocation<P>,
            NoLocation,
        >(ConfigLocation::At(path)),
        location::located(None, Some(path), home, profile) == Ok::<ConfigLocation<P>, NoLocation>(
            ConfigLocation::At(path),
        ),
        location::located(None, None, Some(path), profile) == Ok::<ConfigLocation<P>, NoLocation>(
            ConfigLocation::UnderHome(path),
        ),
        location::located(None, None, None, Some(path)) == Ok::<ConfigLocation<P>, NoLocation>(
            ConfigLocation::UnderHome(path),
        ),
        location::located::<P>(None, None, None, None) is Err,
{
}

/// The text of rows with line feeds between them.
pub open spec fn stacked(rows: Seq<Seq<char>>) -> Seq<char>
    decreases rows.len(),
{
    if rows.len() == 0 {
        Seq::empty()
    } else if rows.len() == 1 {
        rows[0]
    } else {
        rows[0].push('\n') + stacked(rows.drop_first())
    }
}

/// Rows are read back as they were written, where none holds a line feed.
pub proof fn rows_are_read_back(rows: Seq<Seq<char>>)
    requires
        rows.len() > 0,
        forall|i: int| 0 <= i < rows.len() ==> !(#[trigger] rows[i]).contains('\n'),
    ensures
        kube::rows(stacked(rows)) == rows,
    decreases rows.len(),
{
    let first = rows[0];
    let whole = stacked(rows);
    texts::characters_are_found_where_they_first_stand(whole, '\n');
    assert(!first.contains('\n'));
    assert forall|i: int| 0 <= i < first.len() implies #[trigger] first[i] != '\n' by {
        if first[i] == '\n' {
            assert(first.contains('\n'));
        }
    }
    if rows.len() == 1 {
        assert(kube::rows(whole) =~= rows);
    } else {
        let rest = rows.drop_first();
        assert forall|i: int| 0 <= i < rest.len() implies !(#[trigger] rest[i]).contains('\n') by {
            assert(rest[i] == rows[i + 1]);
        }
        rows_are_read_back(rest);
        let n = first.len() as int;
        assert(whole[n] == '\n');
        assert forall|i: int| 0 <= i < n implies #[trigger] whole[i] != '\n' by {
            assert(whole[i] == first[i]);
        }
        assert(text::find_char(whole, '\n') == Some(n));
        assert(whole.take(n) =~= first);
        assert(whole.skip(n + 1) =~= stacked(rest));
        assert(kube::rows(whole) == seq![first] + rest);
        assert(seq![first] + rest =~= rows);
    }
}

/// A text is its rows with line feeds between them, and no row holds one.
pub proof fn rows_hold_the_whole_text(s: Seq<char>)
    ensures
        kube::rows(s).len() > 0,
        stacked(kube::rows(s)) == s,
        forall|i: int| 0 <= i < kube::rows(s).len() ==> !(#[trigger] kube::rows(s)[i]).contains('\n'),
    decreases s.len(),
{
    let all = kube::rows(s);
    texts::characters_are_found_where_they_first_stand(s, '\n');
    match text::find_char(s, '\n') {
        None => {
            assert(all =~= seq![s]);
            assert(!s.contains('\n'));
        },
        Some(i) => {
            let first = s.take(i);
            let tail = s.skip(i + 1);
            rows_hold_the_whole_text(tail);
            let rest = kube::rows(tail);
            assert(all == seq![first] + rest);
            assert(all.drop_first() =~= rest);
            assert(s =~= first.push('\n') + tail);
            assert forall|k: int| 0 <= k < all.len() implies !(#[trigger] all[k]).contains(
                '\n',
            ) by {
                if k > 0 {
                    assert(all[k] == rest[k - 1]);
                } else if first.contains('\n') {
                    let j = choose|j: int| 0 <= j < first.len() && first[j] == '\n';
                    assert(s[j] == '\n');
                }
            }
        },
    }
}

/// The contexts of a listing are what its rows hold between whitespace, without the empty ones:
/// all of these and no others, by rising text and each once. A listing without any is reported
/// as such.
pub proof fn listed_contexts_are_what_rows_hold(
    r: Result<Vec<String>, KubeError>,
    rows: Seq<Seq<char>>,
    context: Seq<char>,
)
    requires
        rows.len() > 0,
        forall|i: int| 0 <= i < rows.len() ==> !(#[trigger] rows[i]).contains('\n'),
        kube::lists_contexts(r, stacked(rows)),
    ensures
        ({
            let listed = context.len() > 0 && exists|i: int|
                0 <= i < rows.len() && text::trim(#[trigger] rows[i]) == context;
            match r {
                Ok(contexts) => {
                    &&& contexts@.len() > 0
                    &&& listed <==> exists|k: int|
                        0 <= k < contexts@.len() && (#[trigger] contexts@[k])@ == context
                    &&& forall|i: int, j: int|
                        0 <= i < j < contexts@.len() ==> order::text_le(
                            (#[trigger] contexts@[i])@,
                            (#[trigger] contexts@[j])@,
                        ) && contexts@[i]@ != contexts@[j]@
                },
                Err(e) => !listed && e@ == KubeErrorView::NoContexts,
            }
        }),
{
    rows_are_read_back(rows);
    let listed = kube::listed_in(rows, context);
    if let Ok(contexts) = r {
        let texts = config::texts_view(contexts@);
        assert(texts.contains(context) <==> listed);
        if texts.contains(context) {
            let k = choose|k: int| 0 <= k < texts.len() && texts[k] == context;
            assert(contexts@[k]@ == context);
        }
        if exists|k: int| 0 <= k < contexts@.len() && (#[trigger] contexts@[k])@ == context {
            let k = choose|k: int|
                0 <= k < contexts@.len() && (#[trigger] contexts@[k])@ == context;
            assert(texts[k] == context);
        }
        assert forall|i: int, j: int| 0 <= i < j < contexts@.len() implies order::text_le(
            (#[trigger] contexts@[i])@,
            (#[trigger] contexts@[j])@,
        ) && contexts@[i]@ != contexts@[j]@ by {
            assert(texts[i] == contexts@[i]@ && texts[j] == contexts@[j]@);
            assert(order::text_lt(texts[i], texts[j]));
        }
    } else {
        assert(!kube::listed_in(rows, context));
    }
}

/// A `kubectl` that fails is reported with what it complained of, without whitespace around it,
/// whatever it printed besides; one that succeeds gives the contexts that it lists.
pub proof fn failures_of_kubectl_are_reported(
    r: Result<Vec<String>, KubeError>,
    success: bool,
    output: Seq<char>,
    complaint: Seq<char>,
)
    requires
        kube::reports_contexts(r, success, output, complaint),
    ensures
        success ==> kube::lists_contexts(r, output),
        !success ==> r is Err && r->Err_0@ == (KubeErrorView::Failed {
            report: text::trim(complaint),
        }) && r->Err_0@.sentence() == "kubectl config get-contexts failed: "@ + text::trim(complaint),
        KubeErrorView::NoContexts.sentence() == "kubectl did not return any kube contexts"@,
{
}

/// `kubectl` is looked for in four directories besides those of the search path.
pub proof fn kubectl_is_looked_for_in_the_usual_places()
    ensures
        kube::usual_directories().len() == 4,
        kube::usual_directories()[0] == "/opt/homebrew/bin"@,
        kube::usual_directories()[1] == "/usr/local/bin"@,
        kube::usual_directories()[2] == "/usr/bin"@,
        kube::usual_directories()[3] == "/bin"@,
{
}

/// Errors of the whole configuration, and of services without one target, are reported by fixed
/// sentences.
pub proof fn fixed_errors_have_fixed_sentences(first: Seq<char>, second: Seq<char>)
    ensures
        ErrorView::ProxyPort.sentence(first, second) == "proxy.port must be between 1 and 65535"@,
        ErrorView::AllWithContext.sentence(first, second)
            == "clusters.all must not define a context"@,
        ErrorView::AllWithLocalPort.sentence(first, second)
            == "clusters.all must not define a local_port"@,
        ErrorView::TargetCount.sentence(first, second)
            == "service must define exactly one of target, service, or pod"@,
        ErrorView::EmptyTarget.sentence(first, second) == "service has an empty target"@,
        ErrorView::EmptyServiceTarget.sentence(first, second)
            == "service has an empty service target"@,
        ErrorView::EmptyPodTarget.sentence(first, second) == "service has an empty pod target"@,
{
}

/// Errors of one field, cluster or service name it in their sentence.
pub proof fn errors_name_what_is_wrong(
    scope: Seq<char>,
    name: Seq<char>,
    first: Seq<char>,
    second: Seq<char>,
)
    ensures
        (ErrorView::Label { field: name }).sentence(first, second) == name
            + " must be a lowercase DNS label (letters, numbers, and hyphens)"@,
        (ErrorView::MissingContext { cluster: name }).sentence(first, second) == "clusters."@ + name
            + " must define a context"@,
        (ErrorView::EmptyContext { cluster: name }).sentence(first, second) == "clusters."@ + name
            + " has an empty context"@,
        (ErrorView::EmptyNamespace { scope, service: name }).sentence(first, second) == scope
            + " service "@ + name + " has an empty namespace"@,
        (ErrorView::RemotePort { scope, service: name }).sentence(first, second) == scope
            + " service "@ + name + " has an invalid remote_port"@,
        (ErrorView::DuplicateService { scope, service: name }).sentence(first, second) == scope
            + " defines service "@ + name + " more than once"@,
{
}

/// Errors that quote texts quote those that they hold, each in its place.
pub proof fn errors_quote_what_they_hold(
    a: Seq<char>,
    b: Seq<char>,
    route: Seq<char>,
    first: Seq<char>,
    second: Seq<char>,
)
    ensures
        (ErrorView::TargetWithoutName { target: a }).quotes().0 == a,
        (ErrorView::TargetWithoutName { target: a }).sentence(first, second) == "target "@ + first
            + " must include a resource name; set service.name explicitly"@,
        (ErrorView::EmptyResourceName { target: a }).quotes().0 == a,
        (ErrorView::EmptyResourceName { target: a }).sentence(first, second) == "target "@ + first
            + " has an empty resource name"@,
        (ErrorView::DuplicateRoute { previous: a, context: b, route }).quotes() == (a, b),
        (ErrorView::DuplicateRoute { previous: a, context: b, route }).sentence(first, second)
            == "contexts "@ + first + " and "@ + second + " produce the same route "@ + route,
{
}

/// A cluster that is put under a name is found there, and every other name leads where it led.
pub proof fn inserted_clusters_are_found(
    entries: Seq<(Seq<char>, ClusterView)>,
    name: Seq<char>,
    cluster: ClusterView,
    other: Seq<char>,
)
    requires
        config::names_rise(entries),
    ensures
        config::lookup(config::inserted(entries, name, cluster), name) == Some(cluster),
        other != name ==> config::lookup(config::inserted(entries, name, cluster), other)
            == config::lookup(entries, other),
    decreases entries.len(),
{
    let after = config::inserted(entries, name, cluster);
    if entries.len() == 0 {
        assert(after[0] == (name, cluster));
        assert(after.drop_first() =~= entries);
    } else if entries[0].0 == name {
        assert(after[0] == (name, cluster));
        assert(after.drop_first() =~= entries.drop_first());
    } else if order::text_le(name, entries[0].0) {
        assert(after[0] == (name, cluster));
        assert(after.drop_first() =~= entries);
    } else {
        let rest = entries.drop_first();
        assert forall|i: int, j: int| 0 <= i < j < rest.len() implies order::text_lt(
            (#[trigger] rest[i]).0,
            (#[trigger] rest[j]).0,
        ) by {
            assert(rest[i] == entries[i + 1] && rest[j] == entries[j + 1]);
        }
        inserted_clusters_are_found(rest, name, cluster, other);
        assert(after[0] == entries[0]);
        assert(after.drop_first() =~= config::inserted(rest, name, cluster));
    }
}

} // verus!
