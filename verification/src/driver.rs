//! From input lines to a set, and from a set to output lines.
use vstd::prelude::*;
use crate::bitstrings::BitString;
use crate::address::{Ipv4Address, Ipv6Address};
use crate::cidr::{IpAddress, IpCidr, Ipv4Cidr, Ipv6Cidr, NetworkParseError};
use crate::config::Config;
use crate::radixset::def::{all_canonical, all_wf, rules_of, Definition};
use crate::radixset::rules::{aggregate_rules, complete_rules, compress_rules, Rule};
use crate::radixset::tree::{insert_all, Tree};
use crate::radixset::RadixSet;
use crate::text::{chars_of, Textual};
use crate::write_lines::{lines_text, WriteLinesIter};

verus! {

/// The line holds a prefix: it is not empty and not a comment, which
/// starts with `#`.
pub open spec fn is_input_line(line: Seq<char>) -> bool {
    line.len() > 0 && line[0] != '#'
}

/// The line is an input line that is not a prefix.
pub open spec fn is_bad_line<A: IpAddress>(line: Seq<char>) -> bool {
    is_input_line(line) && IpCidr::<A>::parsed(line) is Err
}

/// The prefixes of the input lines among `lines`, in order, as bit
/// strings.
pub open spec fn input_keys<A: IpAddress>(lines: Seq<Seq<char>>) -> Seq<Seq<bool>>
    decreases lines.len(),
{
    if lines.len() == 0 {
        Seq::empty()
    } else {
        let before = input_keys::<A>(lines.drop_last());
        match IpCidr::<A>::parsed(lines.last()) {
            Ok(cidr) => if is_input_line(lines.last()) {
                before.push(cidr@)
            } else {
                before
            },
            Err(_) => before,
        }
    }
}

/// Every prefix on the first `n` lines is canonical: its address has no
/// bit set beyond its length.
pub open spec fn inputs_canonical<A: IpAddress>(lines: Seq<Seq<char>>, n: int) -> bool {
    forall|i: int|
        0 <= i < n && is_input_line(#[trigger] lines[i]) ==> (IpCidr::<A>::parsed(lines[i]) matches Ok(
            cidr,
        ) ==> cidr.canonical())
}

/// If the prefixes on the first `n + 1` lines are canonical, so are those
/// on the first `n` lines and the one on line `n`, if there is one.
proof fn lemma_inputs_canonical_step<A: IpAddress>(lines: Seq<Seq<char>>, n: int)
    requires
        0 <= n < lines.len(),
        inputs_canonical::<A>(lines, n + 1),
    ensures
        inputs_canonical::<A>(lines, n),
        is_input_line(lines[n]) ==> (IpCidr::<A>::parsed(lines[n]) matches Ok(cidr)
            ==> cidr.canonical()),
{
}

/// The texts of the lines.
pub open spec fn line_texts(lines: Seq<String>) -> Seq<Seq<char>> {
    lines.map_values(|line: String| line@)
}

/// An input line that is not a prefix.
pub struct InputError {
    /// The position of the line among the lines read, from 0.
    pub line: usize,
    /// Why the line is not a prefix.
    pub error: NetworkParseError,
}

/// Reads one line: `None` for a line that holds no prefix, else the
/// prefix or the reason why the line is none.
pub fn read_line<A: IpAddress>(line: &str) -> (r: Option<Result<IpCidr<A>, NetworkParseError>>)
    ensures
        r == (if is_input_line(line@) {
            Some(IpCidr::<A>::parsed(line@))
        } else {
            None
        }),
        r matches Some(Ok(cidr)) ==> cidr.wf(),
{
    let chars = chars_of(line);
    if chars.len() == 0 || chars[0] == '#' {
        None
    } else {
        Some(IpCidr::<A>::from_chars(&chars))
    }
}

/// Builds the set of the prefixes on the input lines.  Empty lines and
/// comments are passed over.  The first input line that is not a prefix
/// ends the reading with an error.
pub fn read_set<A: IpAddress>(lines: &Vec<String>) -> (r: Result<RadixSet<IpCidr<A>>, InputError>)
    ensures
        match r {
            Ok(set) => {
                &&& set.wf()
                &&& set@ == insert_all(input_keys::<A>(line_texts(lines@)))
                &&& inputs_canonical::<A>(line_texts(lines@), lines@.len() as int)
                    ==> set.canonical()
                &&& forall|i: int|
                    0 <= i < lines@.len() ==> !is_bad_line::<A>(#[trigger] lines@[i]@)
            },
            Err(bad) => {
                &&& bad.line < lines@.len()
                &&& is_bad_line::<A>(lines@[bad.line as int]@)
                &&& IpCidr::<A>::parsed(lines@[bad.line as int]@) == Err::<
                    IpCidr<A>,
                    NetworkParseError,
                >(bad.error)
                &&& forall|i: int| 0 <= i < bad.line ==> !is_bad_line::<A>(#[trigger] lines@[i]@)
            },
        },
{
    let mut set: RadixSet<IpCidr<A>> = RadixSet::default();
    let mut i: usize = 0;
    assert(line_texts(lines@).take(0) =~= Seq::<Seq<char>>::empty());
    while i < lines.len()
        invariant
            i <= lines@.len(),
            set.wf(),
            set@ == insert_all(input_keys::<A>(line_texts(lines@).take(i as int))),
            inputs_canonical::<A>(line_texts(lines@), i as int) ==> set.canonical(),
            forall|j: int| 0 <= j < i ==> !is_bad_line::<A>(#[trigger] lines@[j]@),
        decreases lines@.len() - i,
    {
        proof {
            let texts = line_texts(lines@);
            assert(texts.take(i + 1).drop_last() =~= texts.take(i as int));
            assert(texts.take(i + 1).last() == lines@[i as int]@);
            assert(texts[i as int] == lines@[i as int]@);
            if inputs_canonical::<A>(texts, i + 1) {
                lemma_inputs_canonical_step::<A>(texts, i as int);
            }
        }
        match read_line::<A>(lines[i].as_str()) {
            None => {},
            Some(Ok(cidr)) => {
                proof {
                    let before = input_keys::<A>(line_texts(lines@).take(i as int));
                    assert(before.push(cidr@).drop_last() =~= before);
                    assert(before.push(cidr@).last() == cidr@);
                }
                set.insert(&cidr);
            },
            Some(Err(error)) => {
                return Err(InputError { line: i, error });
            },
        }
        i += 1;
    }
    assert(line_texts(lines@).take(lines@.len() as int) =~= line_texts(lines@));
    Ok(set)
}

/// The line is an input line that is a prefix of neither family.
pub open spec fn is_bad_any_line(line: Seq<char>) -> bool {
    is_bad_line::<Ipv4Address>(line) && is_bad_line::<Ipv6Address>(line)
}

/// The IPv6 prefixes of the input lines among `lines` that are no IPv4
/// prefixes, in order, as bit strings.
pub open spec fn input_keys_v6_only(lines: Seq<Seq<char>>) -> Seq<Seq<bool>>
    decreases lines.len(),
{
    if lines.len() == 0 {
        Seq::empty()
    } else {
        let before = input_keys_v6_only(lines.drop_last());
        match Ipv6Cidr::parsed(lines.last()) {
            Ok(cidr) => if is_bad_line::<Ipv4Address>(lines.last()) {
                before.push(cidr@)
            } else {
                before
            },
            Err(_) => before,
        }
    }
}

/// Builds the sets of the IPv4 and of the IPv6 prefixes on the input
/// lines.  A line that is an IPv4 prefix counts as one; any other input
/// line has to be an IPv6 prefix, and the first that is none ends the
/// reading with the error of the IPv6 reading.
pub fn read_any_sets(lines: &Vec<String>) -> (r: Result<
    (RadixSet<Ipv4Cidr>, RadixSet<Ipv6Cidr>),
    InputError,
>)
    ensures
        match r {
            Ok(sets) => {
                &&& sets.0.wf()
                &&& sets.1.wf()
                &&& sets.0@ == insert_all(input_keys::<Ipv4Address>(line_texts(lines@)))
                &&& sets.1@ == insert_all(input_keys_v6_only(line_texts(lines@)))
                &&& inputs_canonical::<Ipv4Address>(line_texts(lines@), lines@.len() as int)
                    ==> sets.0.canonical()
                &&& inputs_canonical::<Ipv6Address>(line_texts(lines@), lines@.len() as int)
                    ==> sets.1.canonical()
                &&& forall|i: int| 0 <= i < lines@.len() ==> !is_bad_any_line(#[trigger] lines@[i]@)
            },
            Err(bad) => {
                &&& bad.line < lines@.len()
                &&& is_bad_any_line(lines@[bad.line as int]@)
                &&& Ipv6Cidr::parsed(lines@[bad.line as int]@) == Err::<
                    Ipv6Cidr,
                    NetworkParseError,
                >(bad.error)
                &&& forall|i: int| 0 <= i < bad.line ==> !is_bad_any_line(#[trigger] lines@[i]@)
            },
        },
{
    let mut v4: RadixSet<Ipv4Cidr> = RadixSet::default();
    let mut v6: RadixSet<Ipv6Cidr> = RadixSet::default();
    let mut i: usize = 0;
    assert(line_texts(lines@).take(0) =~= Seq::<Seq<char>>::empty());
    while i < lines.len()
        invariant
            i <= lines@.len(),
            v4.wf(),
            v6.wf(),
            v4@ == insert_all(input_keys::<Ipv4Address>(line_texts(lines@).take(i as int))),
            v6@ == insert_all(input_keys_v6_only(line_texts(lines@).take(i as int))),
            inputs_canonical::<Ipv4Address>(line_texts(lines@), i as int) ==> v4.canonical(),
            inputs_canonical::<Ipv6Address>(line_texts(lines@), i as int) ==> v6.canonical(),
            forall|j: int| 0 <= j < i ==> !is_bad_any_line(#[trigger] lines@[j]@),
        decreases lines@.len() - i,
    {
        proof {
            let texts = line_texts(lines@);
            assert(texts.take(i + 1).drop_last() =~= texts.take(i as int));
            assert(texts.take(i + 1).last() == lines@[i as int]@);
            assert(texts[i as int] == lines@[i as int]@);
            if inputs_canonical::<Ipv4Address>(texts, i + 1) {
                lemma_inputs_canonical_step::<Ipv4Address>(texts, i as int);
            }
            if inputs_canonical::<Ipv6Address>(texts, i + 1) {
                lemma_inputs_canonical_step::<Ipv6Address>(texts, i as int);
            }
        }
        match read_line::<Ipv4Address>(lines[i].as_str()) {
            None => {},
            Some(Ok(cidr)) => {
                proof {
                    let before = input_keys::<Ipv4Address>(line_texts(lines@).take(i as int));
                    assert(before.push(cidr@).drop_last() =~= before);
                    assert(before.push(cidr@).last() == cidr@);
                }
                v4.insert(&cidr);
            },
            Some(Err(_)) => {
                match read_line::<Ipv6Address>(lines[i].as_str()) {
                    Some(Ok(cidr)) => {
                        proof {
                            let before = input_keys_v6_only(line_texts(lines@).take(i as int));
                            assert(before.push(cidr@).drop_last() =~= before);
                            assert(before.push(cidr@).last() == cidr@);
                        }
                        v6.insert(&cidr);
                    },
                    Some(Err(error)) => {
                        return Err(InputError { line: i, error });
                    },
                    None => {},
                }
            },
        }
        i += 1;
    }
    assert(line_texts(lines@).take(lines@.len() as int) =~= line_texts(lines@));
    Ok((v4, v6))
}

/// The rules of the rendering that the configuration asks for: the
/// complete one, else the aggregate one, else the compressed one.
pub open spec fn shown_rules(s: Option<Tree>, config: Config) -> Seq<Rule> {
    if config.complete {
        complete_rules(s, config.invert)
    } else if config.aggregate {
        aggregate_rules(s, config.invert)
    } else {
        compress_rules(s, config.invert)
    }
}

/// The text forms of the prefixes of `defs`, each followed by a line
/// feed.
pub open spec fn prefix_lines<S: BitString + Textual>(defs: Seq<Definition<S>>) -> Seq<char>
    decreases defs.len(),
{
    if defs.len() == 0 {
        Seq::empty()
    } else {
        prefix_lines(defs.drop_last()) + defs.last().prefix.text() + seq!['\n']
    }
}

/// The output for a list of definitions: one definition per line, or
/// in the aggregate rendering one prefix per line.
pub open spec fn shown_text<S: BitString + Textual>(
    defs: Seq<Definition<S>>,
    config: Config,
) -> Seq<char> {
    if !config.complete && config.aggregate {
        prefix_lines(defs)
    } else {
        lines_text(defs)
    }
}

fn write_prefixes<S: BitString + Textual>(defs: &Vec<Definition<S>>) -> (r: String)
    ensures
        r@ == prefix_lines(defs@),
{
    let mut out = String::new();
    let mut i: usize = 0;
    assert(defs@.take(0) =~= Seq::<Definition<S>>::empty());
    while i < defs.len()
        invariant
            i <= defs@.len(),
            out@ == prefix_lines(defs@.take(i as int)),
        decreases defs@.len() - i,
    {
        let line = defs[i].prefix.to_string();
        out.push_str(line.as_str());
        out.push('\n');
        assert(defs@.take(i + 1).drop_last() =~= defs@.take(i as int));
        i += 1;
    }
    assert(defs@.take(defs@.len() as int) =~= defs@);
    out
}

/// Writes the rendering of the set that the configuration asks for.
/// The output is the text of a list of valid definitions that stand for
/// the rules of that rendering.  For a set of canonical keys the
/// definitions are canonical, and so the only ones that stand for those
/// rules.
pub fn show<S: BitString + Textual>(set: &RadixSet<S>, config: &Config) -> (r: String)
    requires
        set.wf(),
    ensures
        exists|defs: Seq<Definition<S>>|
            {
                &&& all_wf(defs)
                &&& set.canonical() ==> all_canonical(defs)
                &&& #[trigger] rules_of(defs) == shown_rules(set@, *config)
                &&& r@ == shown_text(defs, *config)
            },
{
    if config.complete {
        let defs = Definition::complete(set, config.invert);
        let ghost shown = defs@;
        let out = WriteLinesIter::new(defs).to_string();
        assert(rules_of(shown) == shown_rules(set@, *config));
        out
    } else if config.aggregate {
        let defs = Definition::aggregate(set, config.invert);
        let out = write_prefixes(&defs);
        assert(rules_of(defs@) == shown_rules(set@, *config));
        out
    } else {
        let defs = Definition::compress(set, config.invert);
        let ghost shown = defs@;
        let out = WriteLinesIter::new(defs).to_string();
        assert(rules_of(shown) == shown_rules(set@, *config));
        out
    }
}

} // verus!
