use vstd::prelude::*;
use crate::capture::FileContent;
use crate::manifest::{lemma_sorted_entries_unique, Manifest, ManifestEntry};
use crate::store::ObjectStore;
use vstd::utf8::{decode_utf8, valid_utf8};
use crate::options::{merge_excludes, merged, ExcludeArgs, OutputArgs};

verus! {

/// What to concatenate: a directory of the filesystem, or a snapshot.
pub struct CatArgs {
    pub path: Option<String>,
    pub id: Option<u32>,
    pub exclude_args: ExcludeArgs,
    pub output_args: OutputArgs,
}

/// Where the files to concatenate come from.
pub enum CatSource {
    /// The files of the snapshot with this id.
    Snapshot { id: u32 },
    /// The files under a directory, leaving out those the patterns match.
    Workdir { path: String, excludes: Vec<String> },
}

/// A resolved concatenation request.
pub struct CatRequest {
    pub source: CatSource,
    pub output: Option<String>,
}

/// `source` is the directory `path` (the current one by default) with the
/// patterns of `cli` followed by those of `config`.
pub open spec fn resolves_workdir(
    source: CatSource,
    path: Option<String>,
    cli: Seq<String>,
    config: Seq<String>,
) -> bool {
    match source {
        CatSource::Workdir { path: p, excludes } => {
            &&& match path {
                Some(q) => p@ == q@,
                None => p@ == "."@,
            }
            &&& merged(excludes@, cli, config)
        },
        CatSource::Snapshot { .. } => false,
    }
}

/// Resolves the arguments: a snapshot when an id is given, otherwise the
/// given directory (the current one by default) with the command-line
/// excludes followed by those of the configuration.
pub fn run(args: CatArgs, config_excludes: Vec<String>) -> (r: CatRequest)
    ensures
        r.output == args.output_args.output,
        args.id is Some ==> r.source == (CatSource::Snapshot { id: args.id->Some_0 }),
        args.id is None ==> resolves_workdir(
            r.source,
            args.path,
            args.exclude_args.exclude@,
            config_excludes@,
        ),
{
    let CatArgs { path, id, exclude_args, output_args } = args;
    let source = match id {
        Some(id) => CatSource::Snapshot { id },
        None => {
            let excludes = merge_excludes(&exclude_args.exclude, &config_excludes);
            let path = match path {
                Some(p) => p,
                None => String::from_str("."),
            };
            CatSource::Workdir { path, excludes }
        },
    };
    CatRequest { source, output: output_args.output }
}

/// The block that stands for one file in concatenated output.
pub open spec fn file_block(path: Seq<char>, body: Seq<char>) -> Seq<char> {
    "--- START FILE: "@ + path + " ---\n"@ + body + "\n--- END FILE: "@ + path + " ---\n\n"@
}

/// What stands in a block when a file's content is not text.
pub open spec fn unreadable_body() -> Seq<char> {
    "[Could not read object as text]"@
}

/// Appends the block of one file to `out`.
pub fn append_file_block(out: &mut String, path: &str, body: &str)
    ensures
        final(out)@ == old(out)@ + file_block(path@, body@),
{
    out.append("--- START FILE: ");
    out.append(path);
    out.append(" ---\n");
    out.append(body);
    out.append("\n--- END FILE: ");
    out.append(path);
    out.append(" ---\n\n");
    assert(final(out)@ =~= old(out)@ + file_block(path@, body@));
}

/// Relies on String::from_utf8: it succeeds exactly on valid UTF-8, and the
/// string then holds the decoded characters.
#[verifier::external_body]
fn utf8_text(b: Vec<u8>) -> (r: Option<String>)
    ensures
        r is Some <==> valid_utf8(b@),
        r is Some ==> r->Some_0@ == decode_utf8(b@),
{
    String::from_utf8(b).ok()
}

/// What stands in the block of an object: its text when it is stored and
/// valid UTF-8, otherwise a notice.
pub open spec fn object_body(store: Map<Seq<char>, Seq<u8>>, d: Seq<char>) -> Seq<char> {
    if store.contains_key(d) && valid_utf8(store[d]) {
        decode_utf8(store[d])
    } else {
        unreadable_body()
    }
}

/// The blocks of a manifest's entries, in order, each with its object's text.
pub open spec fn entry_blocks(es: Seq<ManifestEntry>, store: Map<Seq<char>, Seq<u8>>) -> Seq<
    char,
>
    decreases es.len(),
{
    if es.len() == 0 {
        Seq::empty()
    } else {
        entry_blocks(es.drop_last(), store) + file_block(
            es.last().path@,
            object_body(store, es.last().digest@),
        )
    }
}

/// Concatenates the files of a manifest in ascending order of path, each
/// with the text of its stored object, or a notice when that object is
/// missing or not text.
pub fn render_manifest(manifest: &Manifest, store: &ObjectStore) -> (r: String)
    requires
        manifest.wf(),
        store.wf(),
    ensures
        r@ == entry_blocks(manifest.entry_seq(), store@),
{
    let es = manifest.entries();
    let mut out = String::new();
    let mut i: usize = 0;
    while i < es.len()
        invariant
            store.wf(),
            0 <= i <= es@.len(),
            out@ == entry_blocks(es@.take(i as int), store@),
        decreases es@.len() - i,
    {
        let e = &es[i];
        proof {
            assert(es@.take(i + 1).drop_last() =~= es@.take(i as int));
        }
        match store.get(&e.digest) {
            Ok(bytes) => {
                let c = bytes.clone();
                assert(c@ =~= bytes@);
                match utf8_text(c) {
                    Some(t) => append_file_block(&mut out, e.path.as_str(), t.as_str()),
                    None => append_file_block(
                        &mut out,
                        e.path.as_str(),
                        "[Could not read object as text]",
                    ),
                }
            },
            Err(_) => append_file_block(&mut out, e.path.as_str(), "[Could not read object as text]"),
        }
        i += 1;
    }
    assert(es@.take(i as int) =~= es@);
    out
}

/// What stands in the block of a file read from disk: its text when it is
/// valid UTF-8, otherwise a notice.
pub open spec fn content_body(content: Seq<u8>) -> Seq<char> {
    if valid_utf8(content) {
        decode_utf8(content)
    } else {
        unreadable_body()
    }
}

/// The blocks of files read from disk, in the order given.
pub open spec fn tree_blocks(files: Seq<FileContent>) -> Seq<char>
    decreases files.len(),
{
    if files.len() == 0 {
        Seq::empty()
    } else {
        tree_blocks(files.drop_last()) + file_block(
            files.last().path@,
            content_body(files.last().content@),
        )
    }
}

/// Concatenates files read from disk in the order given, each with its text,
/// or a notice when it is not text.
pub fn render_tree(files: Vec<FileContent>) -> (r: String)
    ensures
        r@ == tree_blocks(files@),
{
    let ghost all = files@;
    let mut out = String::new();
    let mut i: usize = 0;
    while i < files.len()
        invariant
            files@ == all,
            0 <= i <= all.len(),
            out@ == tree_blocks(all.take(i as int)),
        decreases all.len() - i,
    {
        proof {
            assert(all.take(i + 1).drop_last() =~= all.take(i as int));
        }
        let c = files[i].content.clone();
        assert(c@ =~= files@[i as int].content@);
        match utf8_text(c) {
            Some(t) => append_file_block(&mut out, files[i].path.as_str(), t.as_str()),
            None => append_file_block(
                &mut out,
                files[i].path.as_str(),
                "[Could not read object as text]",
            ),
        }
        i += 1;
    }
    assert(all.take(i as int) =~= all);
    out
}

proof fn lemma_entry_blocks_views(s1: Seq<ManifestEntry>, s2: Seq<ManifestEntry>, store: Map<Seq<char>, Seq<u8>>)
    requires
        s1.len() == s2.len(),
        forall|i: int|
            0 <= i < s1.len() ==> (#[trigger] s1[i]).path@ == s2[i].path@ && s1[i].digest@
                == s2[i].digest@,
    ensures
        entry_blocks(s1, store) == entry_blocks(s2, store),
    decreases s1.len(),
{
    if s1.len() > 0 {
        let t1 = s1.drop_last();
        let t2 = s2.drop_last();
        assert forall|i: int| 0 <= i < t1.len() implies (#[trigger] t1[i]).path@ == t2[i].path@
            && t1[i].digest@ == t2[i].digest@ by {
            assert(t1[i] == s1[i] && t2[i] == s2[i]);
        }
        lemma_entry_blocks_views(t1, t2, store);
        assert(s1.last() == s1[s1.len() - 1]);
    }
}

/// Manifests with the same paths and digests render the same text from the
/// same store, whatever order their paths were inserted in.
pub proof fn lemma_render_determined(m1: &Manifest, m2: &Manifest, store: Map<Seq<char>, Seq<u8>>)
    requires
        m1.wf(),
        m2.wf(),
        m1@ == m2@,
    ensures
        entry_blocks(m1.entry_seq(), store) == entry_blocks(m2.entry_seq(), store),
{
    m1.lemma_entry_seq();
    m2.lemma_entry_seq();
    lemma_sorted_entries_unique(m1.entry_seq(), m2.entry_seq(), m1@);
    lemma_entry_blocks_views(m1.entry_seq(), m2.entry_seq(), store);
}

} // verus!
