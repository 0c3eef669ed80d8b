//! Comma-separated output, ready to pivot: one line for each category, or for each
//! publication of each category.

use vstd::prelude::*;
use vstd::string::StringExecFns;
use crate::groups::{group_views, pub_views, CatGroup, GroupView, PubView};
use crate::text::{chars_of, decimal, decimal_text};

verus! {

/// A text with each double quote doubled.
pub open spec fn doubled(s: Seq<char>) -> Seq<char>
    decreases s.len(),
{
    if s.len() == 0 {
        Seq::empty()
    } else if s.last() == '"' {
        doubled(s.drop_last()).push('"').push('"')
    } else {
        doubled(s.drop_last()).push(s.last())
    }
}

/// A text as a field: in double quotes, with those inside it doubled.
pub open spec fn field(s: Seq<char>) -> Seq<char> {
    seq!['"'] + doubled(s) + seq!['"']
}

/// A text as a field. Labels can contain commas, quotes or newlines.
pub fn quote(s: &str) -> (q: String)
    ensures
        q@ == field(s@),
{
    let chars = chars_of(s);
    let mut q = String::new();
    q.push('"');
    let mut i: usize = 0;
    assert(q@ =~= seq!['"'] + doubled(chars@.take(0)));
    while i < chars.len()
        invariant
            i <= chars@.len(),
            q@ == seq!['"'] + doubled(chars@.take(i as int)),
        decreases chars@.len() - i,
    {
        let c: char = chars[i];
        proof {
            assert(chars@.take(i + 1).drop_last() =~= chars@.take(i as int));
            assert(chars@.take(i + 1).last() == c);
        }
        if c == '"' {
            q.push('"');
        }
        q.push(c);
        assert(q@ =~= seq!['"'] + doubled(chars@.take(i + 1)));
        i += 1;
    }
    q.push('"');
    proof {
        assert(chars@.take(chars@.len() as int) =~= chars@);
        assert(q@ =~= field(s@));
    }
    q
}

/// What a reader of the inside of a field makes of it: two quotes are one quote of the
/// text, and a single one ends the field. The text, and what follows the field.
pub open spec fn read_inside(s: Seq<char>) -> (Seq<char>, Seq<char>)
    decreases s.len(),
{
    if s.len() == 0 {
        (Seq::empty(), Seq::empty())
    } else if s[0] != '"' {
        let (text, rest) = read_inside(s.skip(1));
        (seq![s[0]] + text, rest)
    } else if s.len() > 1 && s[1] == '"' {
        let (text, rest) = read_inside(s.skip(2));
        (seq!['"'] + text, rest)
    } else {
        (Seq::empty(), s.skip(1))
    }
}

/// A field can be read back whatever its text holds: the text comes out as it was, and
/// what follows the field, unless that begins with a quote, is left.
pub proof fn law_field_reads_back(s: Seq<char>, rest: Seq<char>)
    requires
        rest.len() == 0 || rest[0] != '"',
    ensures
        (field(s) + rest)[0] == '"',
        read_inside((field(s) + rest).skip(1)) == (s, rest),
{
    assert((field(s) + rest).skip(1) =~= doubled(s) + seq!['"'] + rest);
    lemma_reads_back(s, rest);
}

/// Doubling goes character by character, from the front as from the back.
proof fn lemma_doubled_front(s: Seq<char>)
    requires
        s.len() > 0,
    ensures
        doubled(s) == (if s[0] == '"' {
            seq!['"', '"']
        } else {
            seq![s[0]]
        }) + doubled(s.skip(1)),
    decreases s.len(),
{
    let t = s.drop_last();
    if t.len() == 0 {
        assert(s.skip(1) =~= Seq::<char>::empty());
        assert(doubled(t) =~= Seq::<char>::empty());
        assert(doubled(s) =~= (if s[0] == '"' {
            seq!['"', '"']
        } else {
            seq![s[0]]
        }) + doubled(s.skip(1)));
    } else {
        lemma_doubled_front(t);
        assert(t.skip(1) =~= s.skip(1).drop_last());
        assert(doubled(s) =~= (if s[0] == '"' {
            seq!['"', '"']
        } else {
            seq![s[0]]
        }) + doubled(s.skip(1)));
    }
}

proof fn lemma_reads_back(s: Seq<char>, rest: Seq<char>)
    requires
        rest.len() == 0 || rest[0] != '"',
    ensures
        read_inside(doubled(s) + seq!['"'] + rest) == (s, rest),
    decreases s.len(),
{
    let whole = doubled(s) + seq!['"'] + rest;
    if s.len() == 0 {
        assert(whole =~= seq!['"'] + rest);
        assert(whole.skip(1) =~= rest);
        assert(s =~= Seq::<char>::empty());
    } else {
        lemma_doubled_front(s);
        let t = s.skip(1);
        lemma_reads_back(t, rest);
        let inner = doubled(t) + seq!['"'] + rest;
        if s[0] == '"' {
            assert(whole.skip(2) =~= inner);
            assert(whole[0] == '"' && whole[1] == '"');
        } else {
            assert(whole.skip(1) =~= inner);
            assert(whole[0] == s[0]);
        }
        assert(seq![s[0]] + t =~= s);
    }
}

/// The line of a category.
pub open spec fn group_line(g: GroupView) -> Seq<char> {
    field(g.cat) + ","@ + decimal(g.count) + "\n"@
}

/// The line of a publication of a category.
pub open spec fn pub_line(cat: Seq<char>, p: PubView) -> Seq<char> {
    field(cat) + ","@ + field(p.pubname) + ","@ + decimal(p.count) + "\n"@
}

/// The lines of the publications of a category.
pub open spec fn pub_lines(cat: Seq<char>, pubs: Seq<PubView>) -> Seq<char>
    decreases pubs.len(),
{
    if pubs.len() == 0 {
        Seq::empty()
    } else {
        pub_lines(cat, pubs.drop_last()) + pub_line(cat, pubs.last())
    }
}

/// The lines of all categories.
pub open spec fn csv_lines(groups: Seq<GroupView>, by_pubname: bool) -> Seq<char>
    decreases groups.len(),
{
    if groups.len() == 0 {
        Seq::empty()
    } else {
        csv_lines(groups.drop_last(), by_pubname) + if by_pubname {
            pub_lines(groups.last().cat, groups.last().pubs)
        } else {
            group_line(groups.last())
        }
    }
}

/// The whole output, with its heading.
pub open spec fn csv_text(groups: Seq<GroupView>, by_pubname: bool) -> Seq<char> {
    (if by_pubname {
        "category,pubname,count\n"@
    } else {
        "category,count\n"@
    }) + csv_lines(groups, by_pubname)
}

/// The whole output: one line for each category, or for each of its publications.
pub fn render_csv(groups: &Vec<CatGroup>, by_pubname: bool) -> (text: String)
    ensures
        text@ == csv_text(group_views(groups@), by_pubname),
{
    let ghost all = group_views(groups@);
    let mut text = if by_pubname {
        "category,pubname,count\n".to_owned()
    } else {
        "category,count\n".to_owned()
    };
    let ghost heading = text@;
    assert(text@ =~= heading + csv_lines(all.take(0), by_pubname));
    let mut i: usize = 0;
    while i < groups.len()
        invariant
            i <= groups@.len(),
            all == group_views(groups@),
            text@ == heading + csv_lines(all.take(i as int), by_pubname),
        decreases groups@.len() - i,
    {
        let g = &groups[i];
        let ghost before = text@;
        let cat = quote(g.cat.as_str());
        if by_pubname {
            let ghost pubs = pub_views(g.pubs@);
            let mut j: usize = 0;
            assert(text@ =~= before + pub_lines(g.cat@, pubs.take(0)));
            while j < g.pubs.len()
                invariant
                    j <= g.pubs@.len(),
                    pubs == pub_views(g.pubs@),
                    cat@ == field(g.cat@),
                    text@ == before + pub_lines(g.cat@, pubs.take(j as int)),
                decreases g.pubs@.len() - j,
            {
                let name = quote(g.pubs[j].pubname.as_str());
                let count = decimal_text(g.pubs[j].count);
                text.append(cat.as_str());
                text.append(",");
                text.append(name.as_str());
                text.append(",");
                text.append(count.as_str());
                text.append("\n");
                proof {
                    assert(pubs.take(j + 1).drop_last() =~= pubs.take(j as int));
                    assert(pubs.take(j + 1).last() == g.pubs@[j as int]@);
                    assert(text@ =~= before + pub_lines(g.cat@, pubs.take(j + 1)));
                }
                j += 1;
            }
            assert(pubs.take(pubs.len() as int) =~= pubs);
        } else {
            let count = decimal_text(g.count);
            text.append(cat.as_str());
            text.append(",");
            text.append(count.as_str());
            text.append("\n");
            assert(text@ =~= before + group_line(g@));
        }
        proof {
            assert(all.take(i + 1).drop_last() =~= all.take(i as int));
            assert(all.take(i + 1).last() == g@);
            assert(text@ =~= heading + csv_lines(all.take(i + 1), by_pubname));
        }
        i += 1;
    }
    assert(all.take(all.len() as int) =~= all);
    text
}

/// The output is its heading and then the lines of the categories, one after the other:
/// the lines of two lists of categories are those of the first and then of the second.
pub proof fn law_csv_goes_by_category(x: Seq<GroupView>, y: Seq<GroupView>, by_pubname: bool)
    ensures
        csv_text(Seq::empty(), false) == "category,count\n"@,
        csv_text(Seq::empty(), true) == "category,pubname,count\n"@,
        csv_text(x, by_pubname) == csv_text(Seq::empty(), by_pubname) + csv_lines(x, by_pubname),
        csv_lines(x + y, by_pubname) == csv_lines(x, by_pubname) + csv_lines(y, by_pubname),
    decreases y.len(),
{
    let none = Seq::<GroupView>::empty();
    assert(csv_lines(none, by_pubname) =~= Seq::<char>::empty());
    assert("category,count\n"@ + Seq::<char>::empty() =~= "category,count\n"@);
    assert("category,pubname,count\n"@ + Seq::<char>::empty() =~= "category,pubname,count\n"@);
    assert(csv_lines(none, true) =~= Seq::<char>::empty());
    assert(csv_lines(none, false) =~= Seq::<char>::empty());
    if y.len() == 0 {
        assert(x + y =~= x);
        assert(csv_lines(x, by_pubname) + csv_lines(y, by_pubname) =~= csv_lines(x, by_pubname));
    } else {
        law_csv_goes_by_category(x, y.drop_last(), by_pubname);
        assert((x + y).drop_last() =~= x + y.drop_last());
        assert(csv_lines(x + y, by_pubname) =~= csv_lines(x, by_pubname) + csv_lines(
            y,
            by_pubname,
        ));
    }
}

/// A category is one line with its name and its count. Split by publication, it is a
/// line for each publication, in their order, with both names and the publication's
/// count.
pub proof fn law_csv_line_of_category(g: GroupView, p: PubView, more: Seq<PubView>)
    ensures
        csv_lines(seq![g], false) == field(g.cat) + ","@ + decimal(g.count) + "\n"@,
        g.pubs.len() == 0 ==> csv_lines(seq![g], true).len() == 0,
        g.pubs == more.push(p) ==> csv_lines(seq![g], true) == csv_lines(
            seq![(GroupView { pubs: more, ..g })],
            true,
        ) + field(g.cat) + ","@ + field(p.pubname) + ","@ + decimal(p.count) + "\n"@,
{
    let fewer = GroupView { pubs: more, ..g };
    lemma_csv_one(g, false);
    lemma_csv_one(g, true);
    lemma_csv_one(fewer, true);
    if g.pubs == more.push(p) {
        assert(g.pubs.drop_last() =~= more);
        assert(csv_lines(seq![g], true) =~= csv_lines(seq![fewer], true) + field(g.cat) + ","@
            + field(p.pubname) + ","@ + decimal(p.count) + "\n"@);
    }
}

proof fn lemma_csv_one(g: GroupView, by_pubname: bool)
    ensures
        csv_lines(seq![g], by_pubname) == if by_pubname {
            pub_lines(g.cat, g.pubs)
        } else {
            group_line(g)
        },
{
    let one = seq![g];
    assert(one.drop_last() =~= Seq::<GroupView>::empty());
    assert(csv_lines(one.drop_last(), by_pubname) =~= Seq::<char>::empty());
    assert(csv_lines(one, by_pubname) =~= if by_pubname {
        pub_lines(g.cat, g.pubs)
    } else {
        group_line(g)
    });
}

} // verus!
