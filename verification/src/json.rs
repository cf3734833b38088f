//! The descriptor document: a pretty-printed JSON rendering of the project
//! tree, two spaces of indentation per level, entries separated by commas,
//! string values escaped as JSON demands.

use vstd::prelude::*;

use crate::protocol::PartitionModel;
use crate::protocol::TreeModel;
use crate::protocol::TreePartition;
use crate::protocol::lemma_pm_children;
use crate::protocol::pm;
use crate::protocol::pm_children;

verus! {

/// The lowercase hexadecimal digit for a value below sixteen.
pub open spec fn hex_digit(d: int) -> char {
    if d == 0 {
        '0'
    } else if d == 1 {
        '1'
    } else if d == 2 {
        '2'
    } else if d == 3 {
        '3'
    } else if d == 4 {
        '4'
    } else if d == 5 {
        '5'
    } else if d == 6 {
        '6'
    } else if d == 7 {
        '7'
    } else if d == 8 {
        '8'
    } else if d == 9 {
        '9'
    } else if d == 10 {
        'a'
    } else if d == 11 {
        'b'
    } else if d == 12 {
        'c'
    } else if d == 13 {
        'd'
    } else if d == 14 {
        'e'
    } else {
        'f'
    }
}

/// How one character appears inside a JSON string literal: quote and
/// backslash get a backslash escape, control characters get their short
/// escape or a `\u00..` form, and every other character stands as itself.
pub open spec fn json_escape_char(c: char) -> Seq<char> {
    if c == '"' {
        seq!['\\', '"']
    } else if c == '\\' {
        seq!['\\', '\\']
    } else if c == '\u{8}' {
        seq!['\\', 'b']
    } else if c == '\u{c}' {
        seq!['\\', 'f']
    } else if c == '\n' {
        seq!['\\', 'n']
    } else if c == '\r' {
        seq!['\\', 'r']
    } else if c == '\t' {
        seq!['\\', 't']
    } else if (c as u32) < 0x20 {
        seq!['\\', 'u', '0', '0', hex_digit((c as u32) as int / 16), hex_digit(
            (c as u32) as int % 16,
        )]
    } else {
        seq![c]
    }
}

pub open spec fn json_escape(s: Seq<char>) -> Seq<char>
    decreases s.len(),
{
    if s.len() == 0 {
        Seq::empty()
    } else {
        json_escape_char(s[0]) + json_escape(s.drop_first())
    }
}

/// A JSON string literal: the escaped characters between double quotes.
pub open spec fn json_string(s: Seq<char>) -> Seq<char> {
    seq!['"'] + json_escape(s) + seq!['"']
}

/// A character that JSON passes through unescaped.
pub open spec fn plain_char(c: char) -> bool {
    c != '"' && c != '\\' && (c as u32) >= 0x20
}

pub proof fn lemma_json_escape_snoc(s: Seq<char>, c: char)
    ensures
        json_escape(s.push(c)) == json_escape(s) + json_escape_char(c),
    decreases s.len(),
{
    if s.len() == 0 {
        reveal_with_fuel(json_escape, 2);
        assert(s.push(c)[0] == c);
        assert(s.push(c).drop_first() =~= Seq::<char>::empty());
        assert(json_escape(s.push(c)) =~= json_escape_char(c));
        assert(json_escape(s) + json_escape_char(c) =~= json_escape_char(c));
    } else {
        assert(s.push(c).drop_first() =~= s.drop_first().push(c));
        lemma_json_escape_snoc(s.drop_first(), c);
        assert(json_escape(s.push(c)) =~= json_escape(s) + json_escape_char(c));
    }
}

/// Escaping a sequence of plain characters leaves it unchanged.
pub proof fn lemma_json_escape_plain(s: Seq<char>)
    requires
        forall|i: int| 0 <= i < s.len() ==> plain_char(s[i]),
    ensures
        json_escape(s) == s,
    decreases s.len(),
{
    if s.len() > 0 {
        lemma_json_escape_plain(s.drop_first());
        assert(json_escape(s) =~= seq![s[0]] + s.drop_first());
        assert(seq![s[0]] + s.drop_first() =~= s);
    }
}

/// The fixed first portion of the descriptor document, up to and including
/// the discriminator entry.
pub open spec fn descriptor_header() -> Seq<char> {
    seq![
        '{',
        '\n',
        ' ',
        ' ',
        '"',
        '$',
        'c',
        'l',
        'a',
        's',
        's',
        'N',
        'a',
        'm',
        'e',
        '"',
        ':',
        ' ',
        '"',
        'D',
        'a',
        't',
        'a',
        'M',
        'o',
        'd',
        'e',
        'l',
        '"',
    ]
}

/// A run of named entries, each preceded by a comma, a line break and the
/// indentation of its level.
pub open spec fn children_entries(
    cs: Seq<(Seq<char>, PartitionModel)>,
    ind2: Seq<char>,
) -> Seq<char>
    decreases cs,
{
    if cs.len() == 0 {
        Seq::empty()
    } else {
        seq![',', '\n'] + ind2 + json_string(cs[0].0) + seq![':', ' '] + partition_json(
            cs[0].1,
            ind2,
        ) + children_entries(cs.drop_first(), ind2)
    }
}

/// The JSON object for one partition at a given indentation: its `path`
/// entry if it has one, then one entry per child, in order.
pub open spec fn partition_json(m: PartitionModel, ind: Seq<char>) -> Seq<char>
    decreases m,
{
    let ind2 = ind + seq![' ', ' '];
    if m.path is None && m.children.len() == 0 {
        seq!['{', '}']
    } else {
        let body = match m.path {
            Some(p) => ind2 + seq!['"', 'p', 'a', 't', 'h', '"', ':', ' '] + json_string(p)
                + children_entries(m.children, ind2),
            None => ind2 + json_string(m.children[0].0) + seq![':', ' '] + partition_json(
                m.children[0].1,
                ind2,
            ) + children_entries(m.children.drop_first(), ind2),
        };
        seq!['{', '\n'] + body + seq!['\n'] + ind + seq!['}']
    }
}

/// The whole descriptor document for a tree: the discriminator entry first,
/// then one entry per top-level branch, in the tree's order.
pub open spec fn descriptor_json(t: TreeModel) -> Seq<char> {
    descriptor_header() + children_entries(t, seq![' ', ' ']) + seq!['\n', '}']
}

pub proof fn lemma_children_entries_snoc(
    cs: Seq<(Seq<char>, PartitionModel)>,
    e: (Seq<char>, PartitionModel),
    ind2: Seq<char>,
)
    ensures
        children_entries(cs.push(e), ind2) == children_entries(cs, ind2) + seq![',', '\n'] + ind2
            + json_string(e.0) + seq![':', ' '] + partition_json(e.1, ind2),
    decreases cs.len(),
{
    if cs.len() == 0 {
        reveal_with_fuel(children_entries, 2);
        assert(cs.push(e)[0] == e);
        assert(cs.push(e).drop_first() =~= Seq::<(Seq<char>, PartitionModel)>::empty());
        assert(children_entries(cs.push(e), ind2) =~= children_entries(cs, ind2) + seq![',', '\n']
            + ind2 + json_string(e.0) + seq![':', ' '] + partition_json(e.1, ind2));
    } else {
        assert(cs.push(e)[0] == cs[0]);
        assert(cs.push(e).drop_first() =~= cs.drop_first().push(e));
        lemma_children_entries_snoc(cs.drop_first(), e, ind2);
        assert(children_entries(cs.push(e), ind2) =~= children_entries(cs, ind2) + seq![',', '\n']
            + ind2 + json_string(e.0) + seq![':', ' '] + partition_json(e.1, ind2));
    }
}

/// The lowercase hexadecimal digit for a value below sixteen.
fn hex_digit_str(d: u32) -> (r: &'static str)
    requires
        d < 16,
    ensures
        r@ == seq![hex_digit(d as int)],
{
    let r: &'static str = if d == 0 {
        "0"
    } else if d == 1 {
        "1"
    } else if d == 2 {
        "2"
    } else if d == 3 {
        "3"
    } else if d == 4 {
        "4"
    } else if d == 5 {
        "5"
    } else if d == 6 {
        "6"
    } else if d == 7 {
        "7"
    } else if d == 8 {
        "8"
    } else if d == 9 {
        "9"
    } else if d == 10 {
        "a"
    } else if d == 11 {
        "b"
    } else if d == 12 {
        "c"
    } else if d == 13 {
        "d"
    } else if d == 14 {
        "e"
    } else {
        "f"
    };
    proof {
        reveal_strlit("0");
        reveal_strlit("1");
        reveal_strlit("2");
        reveal_strlit("3");
        reveal_strlit("4");
        reveal_strlit("5");
        reveal_strlit("6");
        reveal_strlit("7");
        reveal_strlit("8");
        reveal_strlit("9");
        reveal_strlit("a");
        reveal_strlit("b");
        reveal_strlit("c");
        reveal_strlit("d");
        reveal_strlit("e");
        reveal_strlit("f");
        assert(r@ =~= seq![hex_digit(d as int)]);
    }
    r
}

/// Appends the JSON string literal for `s`.
pub fn write_json_string(out: &mut String, s: &String)
    ensures
        final(out)@ == old(out)@ + json_string(s@),
{
    let ghost start = out@;
    out.append("\"");
    proof {
        reveal_strlit("\"");
        assert(("\"")@ =~= seq!['"']);
    }
    let n = s.as_str().unicode_len();
    let mut i: usize = 0;
    proof {
        assert(s@.take(0) =~= Seq::<char>::empty());
    }
    while i < n
        invariant
            n == s@.len(),
            i <= n,
            out@ == start + seq!['"'] + json_escape(s@.take(i as int)),
        decreases n - i,
    {
        let c = s.as_str().get_char(i);
        if c == '"' {
            out.append("\\\"");
            proof {
                reveal_strlit("\\\"");
                assert(("\\\"")@ =~= seq!['\\', '"']);
            }
        } else if c == '\\' {
            out.append("\\\\");
            proof {
                reveal_strlit("\\\\");
                assert(("\\\\")@ =~= seq!['\\', '\\']);
            }
        } else if c == '\u{8}' {
            out.append("\\b");
            proof {
                reveal_strlit("\\b");
                assert(("\\b")@ =~= seq!['\\', 'b']);
            }
        } else if c == '\u{c}' {
            out.append("\\f");
            proof {
                reveal_strlit("\\f");
                assert(("\\f")@ =~= seq!['\\', 'f']);
            }
        } else if c == '\n' {
            out.append("\\n");
            proof {
                reveal_strlit("\\n");
                assert(("\\n")@ =~= seq!['\\', 'n']);
            }
        } else if c == '\r' {
            out.append("\\r");
            proof {
                reveal_strlit("\\r");
                assert(("\\r")@ =~= seq!['\\', 'r']);
            }
        } else if c == '\t' {
            out.append("\\t");
            proof {
                reveal_strlit("\\t");
                assert(("\\t")@ =~= seq!['\\', 't']);
            }
        } else if (c as u32) < 0x20 {
            out.append("\\u00");
            proof {
                reveal_strlit("\\u00");
                assert(("\\u00")@ =~= seq!['\\', 'u', '0', '0']);
            }
            out.append(hex_digit_str((c as u32) / 16));
            out.append(hex_digit_str((c as u32) % 16));
        } else {
            out.append(s.as_str().substring_char(i, i + 1));
            proof {
                assert(s@.subrange(i as int, i as int + 1) =~= seq![s@[i as int]]);
            }
        }
        proof {
            lemma_json_escape_snoc(s@.take(i as int), s@[i as int]);
            assert(s@.take(i as int).push(s@[i as int]) =~= s@.take(i as int + 1));
        }
        i = i + 1;
    }
    proof {
        assert(s@.take(n as int) =~= s@);
    }
    out.append("\"");
    proof {
        reveal_strlit("\"");
        assert(("\"")@ =~= seq!['"']);
        assert(out@ =~= start + json_string(s@));
    }
}

/// Appends the JSON object for one partition, indented by `ind`.
pub fn write_partition(out: &mut String, p: &TreePartition, ind: &String)
    ensures
        final(out)@ == old(out)@ + partition_json(pm(*p), ind@),
    decreases *p,
{
    let ghost start = out@;
    let ghost m = pm(*p);
    proof {
        lemma_pm_children(p.children@);
    }
    let ghost cs = m.children;
    if p.path.is_none() && p.children.len() == 0 {
        out.append("{}");
        proof {
            reveal_strlit("{}");
            assert(("{}")@ =~= seq!['{', '}']);
            assert(out@ =~= start + partition_json(m, ind@));
        }
        return;
    }
    let mut ind2 = ind.clone();
    ind2.append("  ");
    proof {
        reveal_strlit("  ");
        assert(("  ")@ =~= seq![' ', ' ']);
        assert(ind2@ == ind@ + seq![' ', ' ']);
    }
    out.append("{\n");
    proof {
        reveal_strlit("{\n");
        assert(("{\n")@ =~= seq!['{', '\n']);
    }
    let k0: usize = match &p.path {
        Some(pa) => {
            out.append(ind2.as_str());
            out.append("\"path\": ");
            proof {
                reveal_strlit("\"path\": ");
                assert(("\"path\": ")@ =~= seq!['"', 'p', 'a', 't', 'h', '"', ':', ' ']);
            }
            write_json_string(out, pa);
            0
        },
        None => {
            out.append(ind2.as_str());
            write_json_string(out, &p.children[0].0);
            out.append(": ");
            proof {
                reveal_strlit(": ");
                assert((": ")@ =~= seq![':', ' ']);
            }
            proof {
                assert(decreases_to!(*p => p.children));
                assert(decreases_to!(p.children => p.children@));
                assert(decreases_to!(p.children@ => p.children@[0]));
                assert(decreases_to!(p.children@[0] => p.children@[0].1));
            }
            write_partition(out, &p.children[0].1, &ind2);
            1
        },
    };
    let ghost base2 = out@;
    proof {
        assert(cs.subrange(k0 as int, k0 as int) =~= Seq::<(Seq<char>, PartitionModel)>::empty());
    }
    let mut i: usize = k0;
    while i < p.children.len()
        invariant
            k0 <= i <= p.children.len(),
            m == pm(*p),
            cs == m.children,
            cs.len() == p.children@.len(),
            forall|k: int|
                0 <= k < cs.len() ==> #[trigger] cs[k] == (p.children@[k].0@, pm(
                    p.children@[k].1,
                )),
            ind2@ == ind@ + seq![' ', ' '],
            out@ == base2 + children_entries(cs.subrange(k0 as int, i as int), ind2@),
        decreases p.children.len() - i,
    {
        out.append(",\n");
        proof {
            reveal_strlit(",\n");
            assert((",\n")@ =~= seq![',', '\n']);
        }
        out.append(ind2.as_str());
        write_json_string(out, &p.children[i].0);
        out.append(": ");
        proof {
            reveal_strlit(": ");
            assert((": ")@ =~= seq![':', ' ']);
        }
        proof {
            assert(decreases_to!(*p => p.children));
            assert(decreases_to!(p.children => p.children@));
            assert(decreases_to!(p.children@ => p.children@[i as int]));
            assert(decreases_to!(p.children@[i as int] => p.children@[i as int].1));
        }
        write_partition(out, &p.children[i].1, &ind2);
        proof {
            lemma_children_entries_snoc(cs.subrange(k0 as int, i as int), cs[i as int], ind2@);
            assert(cs.subrange(k0 as int, i as int).push(cs[i as int]) =~= cs.subrange(
                k0 as int,
                i as int + 1,
            ));
        }
        i = i + 1;
    }
    out.append("\n");
    out.append(ind.as_str());
    out.append("}");
    proof {
        reveal_strlit("\n");
        assert(("\n")@ =~= seq!['\n']);
        reveal_strlit("}");
        assert(("}")@ =~= seq!['}']);
        if k0 == 0 {
            assert(cs.subrange(0, cs.len() as int) =~= cs);
        } else {
            assert(cs.subrange(1, cs.len() as int) =~= cs.drop_first());
        }
        assert(out@ =~= start + partition_json(m, ind@));
    }
}

/// Builds the whole descriptor document for a top-level tree.
pub fn write_descriptor(tree: &Vec<(String, TreePartition)>) -> (r: String)
    ensures
        r@ == descriptor_json(pm_children(tree@)),
{
    let mut out = String::new();
    out.append("{\n  \"$className\": \"DataModel\"");
    proof {
        reveal_strlit("{\n  \"$className\": \"DataModel\"");
        assert(("{\n  \"$className\": \"DataModel\"")@ =~= descriptor_header());
    }
    let ind2 = String::from_str("  ");
    proof {
        reveal_strlit("  ");
        assert(ind2@ =~= seq![' ', ' ']);
    }
    let ghost cs = pm_children(tree@);
    proof {
        lemma_pm_children(tree@);
        assert(cs.take(0) =~= Seq::<(Seq<char>, PartitionModel)>::empty());
    }
    let mut i: usize = 0;
    while i < tree.len()
        invariant
            i <= tree.len(),
            cs == pm_children(tree@),
            cs.len() == tree@.len(),
            forall|k: int|
                0 <= k < cs.len() ==> #[trigger] cs[k] == (tree@[k].0@, pm(tree@[k].1)),
            ind2@ == seq![' ', ' '],
            out@ == descriptor_header() + children_entries(cs.take(i as int), ind2@),
        decreases tree.len() - i,
    {
        out.append(",\n");
        proof {
            reveal_strlit(",\n");
            assert((",\n")@ =~= seq![',', '\n']);
        }
        out.append(ind2.as_str());
        write_json_string(&mut out, &tree[i].0);
        out.append(": ");
        proof {
            reveal_strlit(": ");
            assert((": ")@ =~= seq![':', ' ']);
        }
        write_partition(&mut out, &tree[i].1, &ind2);
        proof {
            lemma_children_entries_snoc(cs.take(i as int), cs[i as int], ind2@);
            assert(cs.take(i as int).push(cs[i as int]) =~= cs.take(i as int + 1));
        }
        i = i + 1;
    }
    out.append("\n}");
    proof {
        reveal_strlit("\n}");
        assert(("\n}")@ =~= seq!['\n', '}']);
        assert(cs.take(cs.len() as int) =~= cs);
        assert(out@ =~= descriptor_json(cs));
    }
    out
}

} // verus!
