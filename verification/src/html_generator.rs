//! Rendering of an indexed tree and of markdown content to HTML fragments.

use vstd::prelude::*;
use vstd::string::StringExecFns;
use crate::file_structure::{
    EntryModel, FileEntry, entries_model, entry_model, lemma_entries_model_index,
};

verus! {

/// What pulldown-cmark's HTML renderer returns for a markdown text: a
/// function of the text alone.
pub uninterp spec fn markdown_html(s: Seq<char>) -> Seq<char>;

/// Relies on `pulldown_cmark::Parser::new_ext` and
/// `pulldown_cmark::html::push_html`, with strikethrough enabled: the HTML
/// rendering of the markdown text, a function of the text alone.
#[verifier::external_body]
pub fn markdown_to_html(markdown: &str) -> (r: String)
    ensures
        r@ == markdown_html(markdown@),
{
    let mut options = pulldown_cmark::Options::empty();
    options.insert(pulldown_cmark::Options::ENABLE_STRIKETHROUGH);
    let parser = pulldown_cmark::Parser::new_ext(markdown, options);
    let mut html_output = String::new();
    pulldown_cmark::html::push_html(&mut html_output, parser);
    html_output
}

/// The on-disk markdown file for an archive path: the path with `.md`
/// appended.
pub fn markdown_path(file: &str) -> (r: String)
    ensures
        r@ == file@ + ".md"@,
{
    let mut s = String::from_str(file);
    s.append(".md");
    s
}

/// The path with every backslash replaced by a forward slash, so that
/// Windows-style separators become URL separators.
pub open spec fn slash_path(p: Seq<char>) -> Seq<char> {
    Seq::new(
        p.len(),
        |i: int|
            if p[i] == '\\' {
                '/'
            } else {
                p[i]
            },
    )
}

/// The HTML fragment for one entry: a file becomes a button that loads its
/// content by its normalized path, a directory becomes a dropdown holding
/// its children's fragments joined by newlines.
pub open spec fn html_of(e: EntryModel) -> Seq<char>
    decreases e,
{
    match e {
        EntryModel::File { name, path, .. } => "<div class=\"file-container\"><button onclick=\"loadContent('"@
            + slash_path(path) + "')\" class=\"file-link\"><i class=\"fa-solid fa-file file-icon\"></i>"@
            + name + "</button></div>"@,
        EntryModel::Directory { name, children, .. } => "<div class=\"dropdown-container\"><button class=\"dropdown-button\">"@
            + name + "</button><div class=\"dropdown-content\">"@ + join_html(children)
            + "</div></div>"@,
    }
}

/// The fragments of a level, joined by newlines.
pub open spec fn join_html(s: Seq<EntryModel>) -> Seq<char>
    decreases s,
{
    if s.len() == 0 {
        Seq::empty()
    } else if s.len() == 1 {
        html_of(s[0])
    } else {
        join_html(s.drop_last()) + "\n"@ + html_of(s.last())
    }
}

fn replace_backslashes(p: &str) -> (r: String)
    ensures
        r@ == slash_path(p@),
{
    let n = p.unicode_len();
    let mut out = String::new();
    let mut i: usize = 0;
    while i < n
        invariant
            i <= n,
            n == p@.len(),
            out@.len() == i,
            forall|k: int|
                0 <= k < i ==> out@[k] == (if p@[k] == '\\' {
                    '/'
                } else {
                    p@[k]
                }),
        decreases n - i,
    {
        let c = p.get_char(i);
        if c == '\\' {
            proof {
                reveal_strlit("/");
            }
            out.append("/");
        } else {
            let piece = p.substring_char(i, i + 1);
            out.append(piece);
        }
        i = i + 1;
    }
    proof {
        assert(out@ =~= slash_path(p@));
    }
    out
}

/// Renders one indexed entry as an HTML fragment; the fragment is a
/// function of the entry's structure alone.
pub fn build_html_structure(entry: &FileEntry) -> (r: String)
    ensures
        r@ == html_of(entry_model(*entry)),
    decreases *entry,
{
    match entry {
        FileEntry::File { name, path, .. } => {
            let mut out = String::from_str(
                "<div class=\"file-container\"><button onclick=\"loadContent('",
            );
            let norm = replace_backslashes(path.as_str());
            out.append(norm.as_str());
            out.append("')\" class=\"file-link\"><i class=\"fa-solid fa-file file-icon\"></i>");
            out.append(name.as_str());
            out.append("</button></div>");
            proof {
                assert(out@ =~= html_of(entry_model(*entry)));
            }
            out
        },
        FileEntry::Directory { name, order, children } => {
            let ghost cm = entries_model(children@);
            proof {
                lemma_entries_model_index(children@);
            }
            let mut joined = String::new();
            let mut i: usize = 0;
            while i < children.len()
                invariant
                    *entry == (FileEntry::Directory {
                        name: *name,
                        order: *order,
                        children: *children,
                    }),
                    i <= children.len(),
                    cm == entries_model(children@),
                    cm.len() == children@.len(),
                    forall|k: int| 0 <= k < children@.len() ==> cm[k] == entry_model(children@[k]),
                    joined@ == join_html(cm.take(i as int)),
                decreases children.len() - i,
            {
                proof {
                    assert(decreases_to!(*entry => (*entry)->Directory_children));
                    assert(decreases_to!(*children => children@[i as int]));
                }
                let piece = build_html_structure(&children[i]);
                proof {
                    assert(cm.take(i + 1).drop_last() =~= cm.take(i as int));
                    assert(cm.take(i + 1).last() == cm[i as int]);
                }
                if i > 0 {
                    joined.append("\n");
                }
                joined.append(piece.as_str());
                proof {
                    if i == 0 {
                        assert(join_html(cm.take(1)) == html_of(cm[0]));
                        assert(joined@ =~= join_html(cm.take(1)));
                    } else {
                        assert(joined@ =~= join_html(cm.take(i + 1)));
                    }
                }
                i = i + 1;
            }
            proof {
                lemma_entries_model_index(children@);
                assert(cm.take(children@.len() as int) =~= cm);
            }
            let mut out = String::from_str(
                "<div class=\"dropdown-container\"><button class=\"dropdown-button\">",
            );
            out.append(name.as_str());
            out.append("</button><div class=\"dropdown-content\">");
            out.append(joined.as_str());
            out.append("</div></div>");
            proof {
                assert(out@ =~= html_of(entry_model(*entry)));
            }
            out
        },
    }
}

} // verus!
