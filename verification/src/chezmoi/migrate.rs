//! What a migration shows before it writes, and when it writes.

use vstd::prelude::*;

use crate::chezmoi::topics::MigratedTopic;
use crate::chezmoi::walk::{summary_parts, Counts, Warnings};
use crate::paths::TargetPath;
use crate::text::{decimal, decimal_of, join, joined, lemma_occurs_between, occurs, views};

verus! {

/// What a migration shows.
#[derive(Debug)]
pub struct Preview {
    pub headline: String,
    pub topics: Vec<String>,
    pub warnings: Option<String>,
}

/// What a migration does after it has shown its preview.
#[derive(Debug, Clone, Copy, PartialEq, Eq, Structural)]
pub enum MigrateStep {
    Ask,
    Write,
    Cancel,
}

/// The number of paths in all topics.
pub open spec fn total_paths(topics: Seq<MigratedTopic>) -> nat
    decreases topics.len(),
{
    if topics.len() == 0 {
        0
    } else {
        total_paths(topics.drop_last()) + topics.last().group.paths@.len()
    }
}

proof fn lemma_total_paths_grow(topics: Seq<MigratedTopic>, n: int)
    requires
        0 <= n <= topics.len(),
    ensures
        total_paths(topics.take(n)) <= total_paths(topics),
    decreases topics.len(),
{
    if n == topics.len() {
        assert(topics.take(n) =~= topics);
    } else {
        lemma_total_paths_grow(topics.drop_last(), n);
        assert(topics.drop_last().take(n) =~= topics.take(n));
    }
}

/// Counts the paths in all topics; `None` where the count cannot be held.
pub fn path_count(topics: &Vec<MigratedTopic>) -> (r: Option<usize>)
    ensures
        match r {
            Some(n) => n == total_paths(topics@),
            None => total_paths(topics@) > usize::MAX,
        },
{
    let mut count: usize = 0;
    for i in 0..topics.len()
        invariant
            count == total_paths(topics@.take(i as int)),
    {
        assert(topics@.take(i + 1).drop_last() =~= topics@.take(i as int));
        proof {
            lemma_total_paths_grow(topics@, i + 1);
        }
        match count.checked_add(topics[i].group.paths.len()) {
            Some(sum) => {
                count = sum;
            },
            None => {
                return None;
            },
        }
    }
    assert(topics@.take(topics@.len() as int) =~= topics@);
    Some(count)
}

/// `one` for a single thing, else `many`.
pub open spec fn plural(n: nat, one: Seq<char>, many: Seq<char>) -> Seq<char> {
    if n == 1 {
        one
    } else {
        many
    }
}

/// What is migrated, in one line.
pub open spec fn headline_text(entries: nat, paths: nat, topics: nat) -> Seq<char> {
    "Migrated "@ + decimal(entries) + " chezmoi entr"@ + plural(entries, "y"@, "ies"@) + " into "@
        + decimal(paths) + " manifest path"@ + plural(paths, ""@, "s"@) + " in "@ + decimal(topics)
        + " topic"@ + plural(topics, ""@, "s"@)
}

fn headline(entries: usize, paths: usize, topics: usize) -> (r: String)
    ensures
        r@ == headline_text(entries as nat, paths as nat, topics as nat),
{
    let mut out = "Migrated ".to_owned();
    out.append(decimal_of(entries).as_str());
    out.append(" chezmoi entr");
    out.append(if entries == 1 { "y" } else { "ies" });
    out.append(" into ");
    out.append(decimal_of(paths).as_str());
    out.append(" manifest path");
    out.append(if paths == 1 { "" } else { "s" });
    out.append(" in ");
    out.append(decimal_of(topics).as_str());
    out.append(" topic");
    out.append(if topics == 1 { "" } else { "s" });
    out
}

/// The text of each path.
pub open spec fn path_texts(paths: Seq<TargetPath>) -> Seq<Seq<char>> {
    paths.map_values(|p: TargetPath| joined(p@, "/"@))
}

/// A topic in one line.
pub open spec fn topic_text(topic: MigratedTopic) -> Seq<char> {
    topic.name@ + (match topic.group.root {
        Some(root) => " ["@ + joined(root@, "/"@) + "]"@,
        None => Seq::empty(),
    }) + "  ("@ + joined(path_texts(topic.group.paths@), ", "@) + ")"@
}

fn topic_line(topic: &MigratedTopic) -> (r: String)
    ensures
        r@ == topic_text(*topic),
{
    let mut texts: Vec<String> = Vec::new();
    let paths = &topic.group.paths;
    for i in 0..paths.len()
        invariant
            views(texts@) == path_texts(paths@).take(i as int),
    {
        let ghost before = texts@;
        let text = paths[i].text();
        texts.push(text);
        assert(views(texts@) =~= views(before).push(text@));
        assert(path_texts(paths@).take(i + 1) =~= path_texts(paths@).take(i as int).push(
            path_texts(paths@)[i as int],
        ));
    }
    assert(path_texts(paths@).take(paths@.len() as int) =~= path_texts(paths@));
    let mut out = topic.name.clone();
    let ghost name = out@;
    match &topic.group.root {
        Some(root) => {
            out.append(" [");
            out.append(root.text().as_str());
            out.append("]");
            assert(out@ =~= name + (" ["@ + joined(root@, "/"@) + "]"@));
        },
        None => {
            assert(out@ =~= name + Seq::<char>::empty());
        },
    }
    out.append("  (");
    out.append(join(&texts, ", ").as_str());
    out.append(")");
    out
}

/// What a migration shows: how much it carries over, each topic, and what it loses.
pub fn preview(
    entry_count: usize,
    path_count: usize,
    topics: &Vec<MigratedTopic>,
    warnings: &Warnings,
) -> (r: Preview)
    ensures
        r.headline@ == headline_text(entry_count as nat, path_count as nat, topics@.len()),
        views(r.topics@) == topics@.map_values(|t: MigratedTopic| topic_text(t)),
        r.warnings is None <==> warnings@ == Counts::zero(),
        match r.warnings {
            Some(text) => text@ == "Warnings: "@ + joined(summary_parts(warnings@), ", "@),
            None => true,
        },
{
    let mut lines: Vec<String> = Vec::new();
    let ghost texts = topics@.map_values(|t: MigratedTopic| topic_text(t));
    for i in 0..topics.len()
        invariant
            texts == topics@.map_values(|t: MigratedTopic| topic_text(t)),
            views(lines@) == texts.take(i as int),
    {
        let ghost before = lines@;
        let line = topic_line(&topics[i]);
        lines.push(line);
        assert(views(lines@) =~= views(before).push(line@));
        assert(texts.take(i + 1) =~= texts.take(i as int).push(texts[i as int]));
    }
    assert(texts.take(texts.len() as int) =~= texts);
    let lost = if warnings.has_any() {
        let mut text = "Warnings: ".to_owned();
        text.append(warnings.summary().as_str());
        Some(text)
    } else {
        None
    };
    Preview {
        headline: headline(entry_count, path_count, topics.len()),
        topics: lines,
        warnings: lost,
    }
}

/// What comes after the preview: the manifest is written where the user agreed, beforehand or
/// when asked.
pub fn after_preview(yes: bool, answer: Option<bool>) -> (r: MigrateStep)
    ensures
        r == if yes || answer == Some(true) {
            MigrateStep::Write
        } else if answer is None {
            MigrateStep::Ask
        } else {
            MigrateStep::Cancel
        },
{
    if yes {
        return MigrateStep::Write;
    }
    match answer {
        Some(true) => MigrateStep::Write,
        Some(false) => MigrateStep::Cancel,
        None => MigrateStep::Ask,
    }
}

// ----------------------------------------------------------------------------
// Laws
// ----------------------------------------------------------------------------

/// Nothing is written unless the user agreed, and one who said neither is asked.
pub proof fn law_nothing_is_written_unasked(yes: bool, answer: Option<bool>, step: MigrateStep)
    requires
        call_ensures(after_preview, (yes, answer), step),
    ensures
        step is Write <==> yes || answer == Some(true),
        step is Ask <==> !yes && answer is None,
        step is Cancel <==> !yes && answer == Some(false),
{
    if let Some(agreed) = answer {
        assert(agreed || !agreed);
    }
}

/// The number of paths is that of all topics together: it is the sum over any two parts.
pub proof fn law_paths_add_up(a: Seq<MigratedTopic>, b: Seq<MigratedTopic>, topic: MigratedTopic)
    ensures
        total_paths(a + b) == total_paths(a) + total_paths(b),
        total_paths(seq![topic]) == topic.group.paths@.len(),
        total_paths(Seq::empty()) == 0,
    decreases b.len(),
{
    reveal_with_fuel(total_paths, 2);
    assert(seq![topic].drop_last() =~= Seq::empty());
    if b.len() == 0 {
        assert(a + b =~= a);
    } else {
        law_paths_add_up(a, b.drop_last(), topic);
        assert((a + b).drop_last() =~= a + b.drop_last());
        assert((a + b).last() == b.last());
    }
}

/// The line of a topic has its name, its root and each of its paths.
pub proof fn law_topic_lines_have_every_path(topic: MigratedTopic, i: int)
    requires
        0 <= i < topic.group.paths@.len(),
    ensures
        topic.name@.is_prefix_of(topic_text(topic)),
        occurs(topic_text(topic), joined(topic.group.paths@[i]@, "/"@)),
        topic.group.root matches Some(root) ==> occurs(
            topic_text(topic),
            " ["@ + joined(root@, "/"@) + "]"@,
        ),
{
    let text = topic_text(topic);
    let texts = path_texts(topic.group.paths@);
    let all = joined(texts, ", "@);
    let root = match topic.group.root {
        Some(root) => " ["@ + joined(root@, "/"@) + "]"@,
        None => Seq::empty(),
    };
    let name = topic.name@;
    let front = name + root + "  ("@;
    assert(text.subrange(0, name.len() as int) =~= name);
    assert(text =~= name + root + ("  ("@ + all + ")"@));
    lemma_occurs_between(text, name, root, "  ("@ + all + ")"@);
    let (a, b) = lemma_part_of_joined(texts, ", "@, i);
    assert(text =~= (front + a) + texts[i] + (b + ")"@));
    lemma_occurs_between(text, front + a, texts[i], b + ")"@);
}

proof fn lemma_part_of_joined(list: Seq<Seq<char>>, sep: Seq<char>, i: int) -> (around: (
    Seq<char>,
    Seq<char>,
))
    requires
        0 <= i < list.len(),
    ensures
        joined(list, sep) == around.0 + list[i] + around.1,
    decreases list.len(),
{
    if list.len() == 1 {
        assert(joined(list, sep) =~= Seq::empty() + list[i] + Seq::empty());
        (Seq::empty(), Seq::empty())
    } else if i == list.len() - 1 {
        let front = joined(list.drop_last(), sep) + sep;
        assert(joined(list, sep) =~= front + list[i] + Seq::empty());
        (front, Seq::empty())
    } else {
        let (a, b) = lemma_part_of_joined(list.drop_last(), sep, i);
        assert(joined(list, sep) =~= a + list[i] + (b + sep + list.last()));
        (a, b + sep + list.last())
    }
}

/// The headline says how much is migrated: entries, paths and topics.
pub proof fn law_headline_says_all_counts(entries: nat, paths: nat, topics: nat)
    ensures
        ({
            let text = headline_text(entries, paths, topics);
            &&& occurs(text, decimal(entries) + " chezmoi entr"@)
            &&& occurs(text, decimal(paths) + " manifest path"@)
            &&& occurs(text, decimal(topics) + " topic"@)
        }),
{
    let text = headline_text(entries, paths, topics);
    let a = decimal(entries) + " chezmoi entr"@;
    let b = plural(entries, "y"@, "ies"@) + " into "@;
    let c = decimal(paths) + " manifest path"@;
    let d = plural(paths, ""@, "s"@) + " in "@;
    let e = decimal(topics) + " topic"@;
    let f = plural(topics, ""@, "s"@);
    let front = "Migrated "@;
    assert(text =~= front + a + (b + c + d + e + f));
    lemma_occurs_between(text, front, a, b + c + d + e + f);
    assert(text =~= (front + a + b) + c + (d + e + f));
    lemma_occurs_between(text, front + a + b, c, d + e + f);
    assert(text =~= (front + a + b + c + d) + e + f);
    lemma_occurs_between(text, front + a + b + c + d, e, f);
}

} // verus!
