//! What the values that go in and out say.

use crate::elf;
use crate::elf::{Section, Symbol};
use crate::output::{Output, OutputView, SampleMeta};
use crate::proc;
use crate::proc::MapEntry;
use crate::pyroscope;
use crate::pyroscope::{Push, PushRequest};
use crate::sampler;
use crate::sampler::Sample;
use crate::text;
use crate::tui;
use crate::tui::Counts;
use crate::zend;
use crate::zend::Frame;
use vstd::prelude::*;

verus! {

/// A stack says what each of its frames says, in order.
pub proof fn lemma_frames(list: Seq<Frame>, i: int)
    ensures
        zend::frames_view(list).len() == list.len(),
        0 <= i < list.len() ==> {
            let f = zend::frames_view(list)[i];
            &&& f.function == list[i].function@
            &&& f.line == list[i].line
            &&& list[i].class matches Some(c) ==> f.class == Some(c@)
            &&& list[i].class is None ==> f.class is None
            &&& list[i].file matches Some(file) ==> f.file == Some(file@)
            &&& list[i].file is None ==> f.file is None
        },
{
}

/// What is known of a request is its URI and its method, each as it is.
pub proof fn lemma_meta(meta: SampleMeta)
    ensures
        meta.request_uri matches Some(s) ==> meta@.request_uri == Some(s@),
        meta.request_uri is None ==> meta@.request_uri is None,
        meta.request_method matches Some(s) ==> meta@.request_method == Some(s@),
        meta.request_method is None ==> meta@.request_method is None,
{
}

/// A sample says its frames and what is known of its request.
pub proof fn lemma_sample(s: Option<Sample>)
    ensures
        s matches Some(sample) ==> sampler::sample_view(s) == Some(
            (zend::frames_view(sample.frames@), sample.meta@),
        ),
        s is None ==> sampler::sample_view(s) is None,
{
}

/// Strings say their characters, whether there is one, or many in order.
pub proof fn lemma_strings(list: Seq<String>, s: Option<String>, i: int)
    ensures
        text::strings(list).len() == list.len(),
        0 <= i < list.len() ==> text::strings(list)[i] == list[i]@,
        s matches Some(t) ==> text::opt_string(s) == Some(t@),
        s is None ==> text::opt_string(s) is None,
{
}

/// Pairs of strings say both strings, in order.
pub proof fn lemma_pairs(list: Seq<(String, String)>, i: int)
    ensures
        pyroscope::pairs(list).len() == list.len(),
        0 <= i < list.len() ==> pyroscope::pairs(list)[i] == (list[i].0@, list[i].1@),
{
}

/// A push says its server, its query, its headers and its body; and no push says
/// nothing.
pub proof fn lemma_push(r: PushRequest)
    ensures
        r@.url == r.url@,
        r@.query == pyroscope::pairs(r.query@),
        r@.headers == pyroscope::pairs(r.headers@),
        r@.body == r.body@,
        pyroscope::push_view(Push::Send(r)) == Some(Some(r@)),
        pyroscope::push_view(Push::Nothing) is None,
        pyroscope::push_view(Push::Failed) matches Some(sent) && sent is None,
{
}

/// Output says its bytes, or its push.
pub proof fn lemma_output(bytes: Vec<u8>, push: Push)
    ensures
        Output::Bytes(bytes)@ == OutputView::Bytes(bytes@),
        Output::Push(push)@ == OutputView::Push(pyroscope::push_view(push)),
        Output::Failed@ is Failed,
{
}

/// Maps say where each mapping starts, its permissions and its path.
pub proof fn lemma_maps(list: Seq<MapEntry>, i: int)
    ensures
        proc::entries_view(list).len() == list.len(),
        0 <= i < list.len() ==> {
            let m = proc::entries_view(list)[i];
            &&& m.start == list[i].start
            &&& m.perms == list[i].perms@
            &&& list[i].path matches Some(p) ==> m.path == Some(p@)
            &&& list[i].path is None ==> m.path is None
        },
{
}

/// Symbols say their names and addresses, and sections their names and contents.
pub proof fn lemma_elf<'a>(symbols: Seq<Symbol>, sections: Seq<Section<'a>>, i: int)
    ensures
        elf::symbols_view(symbols).len() == symbols.len(),
        0 <= i < symbols.len() ==> {
            let s = elf::symbols_view(symbols)[i];
            &&& s.1 == symbols[i].address
            &&& symbols[i].name matches Some(n) ==> s.0 == Some(n@)
            &&& symbols[i].name is None ==> s.0 is None
        },
        elf::sections_view(sections).len() == sections.len(),
        0 <= i < sections.len() ==> {
            let s = elf::sections_view(sections)[i];
            &&& sections[i].name matches Some(n) ==> s.0 == Some(n@)
            &&& sections[i].name is None ==> s.0 is None
            &&& sections[i].data matches Some(d) ==> s.1 == Some(d@)
            &&& sections[i].data is None ==> s.1 is None
        },
{
}

/// Rows say their names and counts, in order.
pub proof fn lemma_rows(list: Seq<(String, Counts)>, i: int)
    ensures
        tui::rows_view(list).len() == list.len(),
        0 <= i < list.len() ==> tui::rows_view(list)[i] == (list[i].0@, list[i].1),
{
}

} // verus!
