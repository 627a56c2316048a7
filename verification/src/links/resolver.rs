//! The link resolution surface the application layer uses: where a link
//! leads, which heading or block inside the target it addresses, and what to
//! offer when nothing matches. The host asks the index; this decides.
use vstd::prelude::*;
use crate::links::reference::{
    heading_matches, opt_view, slug, target_alias, target_block, target_heading, target_path, LinkTarget,
};
use crate::model::{Link, LinkKind};
use crate::strings::{chars_eq, clone_string, eq_ic, push_str, str_to_string, to_chars};
use crate::vault::path::{sanitize_segment, sanitize_spec, VaultPath};

verus! {

/// Where a link leads.
#[derive(Debug)]
pub enum ResolutionOutcome {
    /// The target exists.
    Resolved {
        path: VaultPath,
        /// Line to scroll to, when the link addressed a heading or block that
        /// was found.
        line: Option<usize>,
        /// The link named a heading or block the target does not have. The note
        /// still opens; the UI says the anchor is missing rather than
        /// pretending it worked.
        anchor_missing: bool,
        ambiguous: bool,
    },
    /// Nothing answers to it. Carries the name a new note would get.
    Unresolved { suggested_name: String },
    /// An `http(s)` destination, for the shell to open.
    External { url: String },
}

#[derive(Debug)]
pub struct LinkResolution {
    pub target: String,
    pub outcome: ResolutionOutcome,
}

pub struct LinkResolver;

/// The first (text, line) entry `matches` accepts, by its line.
pub open spec fn first_heading_line(hs: Seq<(String, usize)>, wanted: Seq<char>) -> Option<usize>
    decreases hs.len(),
{
    if hs.len() == 0 {
        None
    } else if eq_ic(hs[0].0@, wanted) || slug(hs[0].0@) == slug(wanted) {
        Some(hs[0].1)
    } else {
        first_heading_line(hs.drop_first(), wanted)
    }
}

pub open spec fn first_block_line(bs: Seq<(String, usize)>, id: Seq<char>) -> Option<usize>
    decreases bs.len(),
{
    if bs.len() == 0 {
        None
    } else if bs[0].0@ == id {
        Some(bs[0].1)
    } else {
        first_block_line(bs.drop_first(), id)
    }
}

/// Which line a link's anchor points at, and whether it named one the
/// target lacks: a block id is looked for among the blocks, else a heading
/// among the headings (matched as headings are), else there is no anchor.
pub open spec fn anchor_of(
    block: Option<Seq<char>>,
    heading: Option<Seq<char>>,
    headings: Seq<(String, usize)>,
    blocks: Seq<(String, usize)>,
) -> (Option<usize>, bool) {
    match block {
        Some(b) => match first_block_line(blocks, b) {
            Some(line) => (Some(line), false),
            None => (None, true),
        },
        None => match heading {
            Some(h) => match first_heading_line(headings, h) {
                Some(line) => (Some(line), false),
                None => (None, true),
            },
            None => (None, false),
        },
    }
}

impl LinkResolver {
    /// The wiki link the "follow link" action follows for a raw target as
    /// typed, e.g. `Note#Heading|Alias`.
    pub fn link_for(raw: &str) -> (r: Link)
        ensures
            r.kind == LinkKind::WikiLink,
            r.raw@ == "[["@ + raw@ + "]]"@,
            r.target@ == target_path(raw@),
            opt_view(r.heading) == target_heading(raw@),
            opt_view(r.block_id) == target_block(raw@),
            opt_view(r.alias) == target_alias(raw@),
            r.line == 0 && r.byte_start == 0 && r.byte_end == 0,
    {
        let parsed = LinkTarget::parse(raw);
        let mut text = str_to_string("[[");
        push_str(&mut text, raw);
        push_str(&mut text, "]]");
        Link {
            kind: LinkKind::WikiLink,
            raw: text,
            target: parsed.path,
            heading: parsed.heading,
            block_id: parsed.block_id,
            alias: parsed.alias,
            line: 0,
            byte_start: 0,
            byte_end: 0,
        }
    }

    /// Where a link's heading or block anchor is among the target's headings
    /// (text, line) and blocks (id, line).
    pub fn locate_anchor(link: &Link, headings: &Vec<(String, usize)>, blocks: &Vec<(String, usize)>) -> (r: (
        Option<usize>,
        bool,
    ))
        ensures
            r == anchor_of(opt_view(link.block_id), opt_view(link.heading), headings@, blocks@),
    {
        if let Some(block_id) = &link.block_id {
            let id = to_chars(block_id.as_str());
            let mut i: usize = 0;
            assert(blocks@.skip(0) =~= blocks@);
            while i < blocks.len()
                invariant
                    i <= blocks@.len(),
                    id@ == block_id@,
                    opt_view(link.block_id) == Some(block_id@),
                    first_block_line(blocks@, block_id@) == first_block_line(blocks@.skip(i as int), block_id@),
                decreases blocks@.len() - i,
            {
                assert(blocks@.skip(i as int).drop_first() =~= blocks@.skip(i + 1));
                assert(blocks@.skip(i as int)[0] == blocks@[i as int]);
                if chars_eq(&to_chars(blocks[i].0.as_str()), &id) {
                    assert(first_block_line(blocks@.skip(i as int), block_id@) == Some(blocks@[i as int].1));
                    return (Some(blocks[i].1), false);
                }
                i = i + 1;
            }
            return (None, true);
        }
        if let Some(heading) = &link.heading {
            let mut i: usize = 0;
            assert(headings@.skip(0) =~= headings@);
            while i < headings.len()
                invariant
                    i <= headings@.len(),
                    link.block_id is None,
                    opt_view(link.heading) == Some(heading@),
                    first_heading_line(headings@, heading@) == first_heading_line(headings@.skip(i as int), heading@),
                decreases headings@.len() - i,
            {
                assert(headings@.skip(i as int).drop_first() =~= headings@.skip(i + 1));
                assert(headings@.skip(i as int)[0] == headings@[i as int]);
                if heading_matches(headings[i].0.as_str(), heading.as_str()) {
                    assert(first_heading_line(headings@.skip(i as int), heading@) == Some(headings@[i as int].1));
                    return (Some(headings[i].1), false);
                }
                i = i + 1;
            }
            return (None, true);
        }
        (None, false)
    }

    /// Where `link`, written in the note `from`, leads: an external link is
    /// handed to the shell; `[[#Heading]]` addresses `from` itself; any other
    /// target leads where the index resolved it (`found`: the path and whether
    /// several files answered), or nowhere, with the name a new note would
    /// get. `anchor` is where its heading or block was found in the target.
    pub fn resolution(
        from: &VaultPath,
        link: &Link,
        found: Option<(VaultPath, bool)>,
        anchor: (Option<usize>, bool),
    ) -> (r: LinkResolution)
        ensures
            r.target@ == link.target@,
            link.kind == LinkKind::External ==> (r.outcome matches ResolutionOutcome::External { url } && url@
                == link.target@),
            link.kind != LinkKind::External && link.target@.len() == 0 ==> (r.outcome matches ResolutionOutcome::Resolved {
                path,
                line,
                anchor_missing,
                ambiguous,
            } && path@ == from@ && line == anchor.0 && anchor_missing == anchor.1 && !ambiguous),
            link.kind != LinkKind::External && link.target@.len() > 0 ==> (match found {
                Some((p, several)) => r.outcome matches ResolutionOutcome::Resolved {
                    path,
                    line,
                    anchor_missing,
                    ambiguous,
                } && path@ == p@ && line == anchor.0 && anchor_missing == anchor.1 && ambiguous == several,
                None => r.outcome matches ResolutionOutcome::Unresolved { suggested_name } && suggested_name@
                    == sanitize_spec(link.target@),
            }),
    {
        let target = clone_string(&link.target);
        if link.kind == LinkKind::External {
            return LinkResolution { target, outcome: ResolutionOutcome::External { url: clone_string(&link.target) } };
        }
        if link.target.as_str().is_empty() {
            return LinkResolution {
                target,
                outcome: ResolutionOutcome::Resolved {
                    path: from.clone(),
                    line: anchor.0,
                    anchor_missing: anchor.1,
                    ambiguous: false,
                },
            };
        }
        match found {
            Some((path, several)) => LinkResolution {
                target,
                outcome: ResolutionOutcome::Resolved { path, line: anchor.0, anchor_missing: anchor.1, ambiguous: several },
            },
            None => LinkResolution {
                target,
                outcome: ResolutionOutcome::Unresolved { suggested_name: sanitize_segment(link.target.as_str()) },
            },
        }
    }
}

} // verus!
