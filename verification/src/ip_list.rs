//! Reading a list of IP addresses: where the text comes from, how it is
//! cut into entries, and which addresses the entries give.
use vstd::prelude::*;
use crate::ip::{IpAddress, parse_ip_spec, parse_ip_chars};
use crate::cidr::{CidrError, CidrFault, expand_cidr_spec, expand_cidr_chars};
use crate::sorted::strictly_sorted;
use crate::ipset::IpSet;
use crate::text::{split_on, trimmed, split, trim, contains_char, chars_of, string_from_chars, lemma_split_concat, lemma_split_no_separator};
use crate::ip::{dotted_text, ipv4_value, lemma_ipv4_round_trip, lemma_dotted_text_chars};
use crate::number::is_dec_digit;

verus! {

/// Where the list of addresses is asked to come from.
#[derive(Clone, Copy, Debug, PartialEq, Eq, Structural)]
pub enum IpSource {
    /// The first of: the input file, the inline list, the URL, standard input.
    Auto,
    /// The input file.
    File,
    /// Standard input.
    Stdin,
    /// The inline, comma-separated list.
    Inline,
    /// The text behind a URL.
    Url,
}

/// Where the text is to be read from.
#[derive(Clone, Copy, Debug, PartialEq, Eq, Structural)]
pub enum TextOrigin {
    File,
    Inline,
    Url,
    Stdin,
}

/// The setting that the chosen source needs and that was not given.
#[derive(Clone, Copy, Debug, PartialEq, Eq, Structural)]
pub enum MissingSetting {
    Input,
    Ips,
    Url,
}

/// How to obtain the text of the list and how to cut it into entries.
#[derive(Clone, Copy, Debug, PartialEq, Eq, Structural)]
pub struct SourcePlan {
    pub origin: TextOrigin,
    /// Entries are separated by `,` when true (the inline list) and by line
    /// breaks otherwise (a file, a URL's text, standard input).
    pub split_on_comma: bool,
}

/// The origin that `source` picks, given which settings are present.
pub open spec fn plan_origin(source: IpSource, has_input: bool, has_ips: bool, has_url: bool) -> Result<TextOrigin, MissingSetting> {
    match source {
        IpSource::File => if has_input {
            Ok(TextOrigin::File)
        } else {
            Err(MissingSetting::Input)
        },
        IpSource::Inline => if has_ips {
            Ok(TextOrigin::Inline)
        } else {
            Err(MissingSetting::Ips)
        },
        IpSource::Url => if has_url {
            Ok(TextOrigin::Url)
        } else {
            Err(MissingSetting::Url)
        },
        IpSource::Stdin => Ok(TextOrigin::Stdin),
        IpSource::Auto => if has_input {
            Ok(TextOrigin::File)
        } else if has_ips {
            Ok(TextOrigin::Inline)
        } else if has_url {
            Ok(TextOrigin::Url)
        } else {
            Ok(TextOrigin::Stdin)
        },
    }
}

/// The origin a source reads from, when it names one.
pub open spec fn named_origin(source: IpSource) -> Option<TextOrigin> {
    match source {
        IpSource::File => Some(TextOrigin::File),
        IpSource::Inline => Some(TextOrigin::Inline),
        IpSource::Url => Some(TextOrigin::Url),
        IpSource::Stdin => Some(TextOrigin::Stdin),
        IpSource::Auto => None,
    }
}

/// Whether the setting that an origin reads is present.
pub open spec fn origin_available(o: TextOrigin, has_input: bool, has_ips: bool, has_url: bool) -> bool {
    match o {
        TextOrigin::File => has_input,
        TextOrigin::Inline => has_ips,
        TextOrigin::Url => has_url,
        TextOrigin::Stdin => true,
    }
}

/// The setting that an origin needs.
pub open spec fn needed_setting(o: TextOrigin) -> MissingSetting {
    match o {
        TextOrigin::File => MissingSetting::Input,
        TextOrigin::Inline => MissingSetting::Ips,
        _ => MissingSetting::Url,
    }
}

/// An explicitly chosen source reads from that source when its setting is
/// present, whatever the other settings, and is refused otherwise; auto
/// mode takes the first available of the input file, the inline list, the
/// URL, and reads standard input when none is given. A refusal names the
/// missing setting (`--input`, `--ips`, `--url`). Whatever is chosen
/// is always available, and only the inline list is comma-separated.
pub proof fn lemma_source_choice(source: IpSource, has_input: bool, has_ips: bool, has_url: bool)
    ensures
        named_origin(source) matches Some(o) ==> (origin_available(o, has_input, has_ips, has_url)
            <==> plan_origin(source, has_input, has_ips, has_url) == Ok::<TextOrigin, MissingSetting>(o)),
        named_origin(source) matches Some(o) ==> (!origin_available(o, has_input, has_ips, has_url)
            <==> plan_origin(source, has_input, has_ips, has_url) is Err),
        named_origin(source) matches Some(o) ==> (!origin_available(o, has_input, has_ips, has_url)
            ==> plan_origin(source, has_input, has_ips, has_url) == Err::<TextOrigin, MissingSetting>(needed_setting(o))),
        plan_origin(source, has_input, has_ips, has_url) matches Ok(o) ==> origin_available(o, has_input, has_ips, has_url),
        source == IpSource::Auto ==> plan_origin(source, has_input, has_ips, has_url) is Ok,
        source == IpSource::Auto && has_input ==> plan_origin(source, has_input, has_ips, has_url)
            == Ok::<TextOrigin, MissingSetting>(TextOrigin::File),
        source == IpSource::Auto && !has_input && has_ips ==> plan_origin(source, has_input, has_ips, has_url)
            == Ok::<TextOrigin, MissingSetting>(TextOrigin::Inline),
        source == IpSource::Auto && !has_input && !has_ips && has_url ==> plan_origin(source, has_input, has_ips, has_url)
            == Ok::<TextOrigin, MissingSetting>(TextOrigin::Url),
        source == IpSource::Auto && !has_input && !has_ips && !has_url ==> plan_origin(source, has_input, has_ips, has_url)
            == Ok::<TextOrigin, MissingSetting>(TextOrigin::Stdin),
{
}

/// Decides where the text of the list comes from and how it is cut, from
/// the chosen source and which of the input file, inline list and URL
/// settings were given.
pub fn plan_ip_source(source: IpSource, has_input: bool, has_ips: bool, has_url: bool) -> (r: Result<SourcePlan, MissingSetting>)
    ensures
        match r {
            Ok(plan) => plan_origin(source, has_input, has_ips, has_url) == Ok::<TextOrigin, MissingSetting>(plan.origin)
                && plan.split_on_comma == (plan.origin == TextOrigin::Inline),
            Err(m) => plan_origin(source, has_input, has_ips, has_url) == Err::<TextOrigin, MissingSetting>(m),
        },
{
    let origin = match source {
        IpSource::File => if has_input {
            TextOrigin::File
        } else {
            return Err(MissingSetting::Input);
        },
        IpSource::Inline => if has_ips {
            TextOrigin::Inline
        } else {
            return Err(MissingSetting::Ips);
        },
        IpSource::Url => if has_url {
            TextOrigin::Url
        } else {
            return Err(MissingSetting::Url);
        },
        IpSource::Stdin => TextOrigin::Stdin,
        IpSource::Auto => if has_input {
            TextOrigin::File
        } else if has_ips {
            TextOrigin::Inline
        } else if has_url {
            TextOrigin::Url
        } else {
            TextOrigin::Stdin
        },
    };
    let split_on_comma = matches!(origin, TextOrigin::Inline);
    Ok(SourcePlan { origin, split_on_comma })
}

/// An entry of the list that gave no address.
#[derive(Debug, PartialEq, Eq)]
pub enum Rejection {
    /// An entry with a `/` that is no acceptable CIDR block.
    BadCidr { entry: String, error: CidrError },
    /// An entry that is no IP address.
    BadIp { entry: String },
}

/// What a [`Rejection`] says, with texts as character sequences.
pub enum RejectionView {
    BadCidr { entry: Seq<char>, error: CidrFault },
    BadIp { entry: Seq<char> },
}

impl View for Rejection {
    type V = RejectionView;

    open spec fn view(&self) -> RejectionView {
        match self {
            Rejection::BadCidr { entry, error } => RejectionView::BadCidr { entry: entry@, error: error@ },
            Rejection::BadIp { entry } => RejectionView::BadIp { entry: entry@ },
        }
    }
}

/// The addresses read from a list, in order and each once, and the
/// entries that gave none, in the order they came.
#[derive(Debug, PartialEq, Eq)]
pub struct IpCollection {
    pub ips: Vec<IpAddress>,
    pub rejected: Vec<Rejection>,
}

/// What one (trimmed) entry of the list gives.
pub enum EntryOutcome {
    /// An empty entry or a comment (starting with `#`).
    Skip,
    /// The addresses of the entry.
    Accept(Seq<IpAddress>),
    /// The entry gave no address.
    Reject(RejectionView),
}

pub open spec fn entry_outcome(e: Seq<char>, max_expand: usize) -> EntryOutcome {
    if e.len() == 0 || e[0] == '#' {
        EntryOutcome::Skip
    } else if e.contains('/') {
        match expand_cidr_spec(e, max_expand) {
            Ok(ips) => EntryOutcome::Accept(ips),
            Err(f) => EntryOutcome::Reject(RejectionView::BadCidr { entry: e, error: f }),
        }
    } else {
        match parse_ip_spec(e) {
            Some(ip) => EntryOutcome::Accept(seq![ip]),
            None => EntryOutcome::Reject(RejectionView::BadIp { entry: e }),
        }
    }
}

/// The separator of entries.
pub open spec fn entry_separator(split_on_comma: bool) -> char {
    if split_on_comma {
        ','
    } else {
        '\n'
    }
}

/// The entries of `text`: the pieces between separators, each trimmed.
/// Cutting at line breaks and trimming drops a carriage return before a
/// line break, so lines end the same way with `\n` and with `\r\n`.
pub open spec fn entries_of(text: Seq<char>, split_on_comma: bool) -> Seq<Seq<char>> {
    split_on(text, entry_separator(split_on_comma)).map_values(|f: Seq<char>| trimmed(f))
}

/// All the addresses that the entries give.
pub open spec fn accepted_ips(entries: Seq<Seq<char>>, max_expand: usize) -> Set<IpAddress>
    decreases entries.len(),
{
    if entries.len() == 0 {
        Set::empty()
    } else {
        let before = accepted_ips(entries.drop_last(), max_expand);
        match entry_outcome(entries.last(), max_expand) {
            EntryOutcome::Accept(ips) => before + ips.to_set(),
            _ => before,
        }
    }
}

/// The entries that give no address, in order.
pub open spec fn rejections(entries: Seq<Seq<char>>, max_expand: usize) -> Seq<RejectionView>
    decreases entries.len(),
{
    if entries.len() == 0 {
        Seq::empty()
    } else {
        let before = rejections(entries.drop_last(), max_expand);
        match entry_outcome(entries.last(), max_expand) {
            EntryOutcome::Reject(r) => before.push(r),
            _ => before,
        }
    }
}

/// The addresses and refusals of two lists of entries, one after the
/// other, are the union of their addresses and the refusals of the first
/// followed by those of the second.
pub proof fn lemma_entries_concat(e1: Seq<Seq<char>>, e2: Seq<Seq<char>>, max_expand: usize)
    ensures
        accepted_ips(e1 + e2, max_expand) == accepted_ips(e1, max_expand) + accepted_ips(e2, max_expand),
        rejections(e1 + e2, max_expand) == rejections(e1, max_expand) + rejections(e2, max_expand),
    decreases e2.len(),
{
    if e2.len() == 0 {
        assert(e1 + e2 =~= e1);
        assert(accepted_ips(e1, max_expand) + Set::<IpAddress>::empty() =~= accepted_ips(e1, max_expand));
        assert(rejections(e1, max_expand) + Seq::<RejectionView>::empty() =~= rejections(e1, max_expand));
    } else {
        lemma_entries_concat(e1, e2.drop_last(), max_expand);
        assert((e1 + e2).drop_last() =~= e1 + e2.drop_last());
        assert((e1 + e2).last() == e2.last());
        let a1 = accepted_ips(e1, max_expand);
        let a2 = accepted_ips(e2.drop_last(), max_expand);
        let r1 = rejections(e1, max_expand);
        let r2 = rejections(e2.drop_last(), max_expand);
        match entry_outcome(e2.last(), max_expand) {
            EntryOutcome::Accept(ips) => {
                assert(a1 + a2 + ips.to_set() =~= a1 + (a2 + ips.to_set()));
            },
            EntryOutcome::Reject(r) => {
                assert((r1 + r2).push(r) =~= r1 + r2.push(r));
            },
            EntryOutcome::Skip => {},
        }
    }
}

/// Reading two texts joined by the separator gives the union of the
/// addresses of each, and the refusals of the first followed by those of
/// the second: a list can be cut anywhere between entries.
pub proof fn lemma_list_concat(t1: Seq<char>, t2: Seq<char>, split_on_comma: bool, max_expand: usize)
    ensures
        accepted_ips(entries_of(t1 + seq![entry_separator(split_on_comma)] + t2, split_on_comma), max_expand)
            == accepted_ips(entries_of(t1, split_on_comma), max_expand) + accepted_ips(entries_of(t2, split_on_comma), max_expand),
        rejections(entries_of(t1 + seq![entry_separator(split_on_comma)] + t2, split_on_comma), max_expand)
            == rejections(entries_of(t1, split_on_comma), max_expand) + rejections(entries_of(t2, split_on_comma), max_expand),
{
    let sep = entry_separator(split_on_comma);
    lemma_split_concat(t1, t2, sep);
    assert(entries_of(t1 + seq![sep] + t2, split_on_comma) =~= entries_of(t1, split_on_comma) + entries_of(t2, split_on_comma));
    lemma_entries_concat(entries_of(t1, split_on_comma), entries_of(t2, split_on_comma), max_expand);
}

/// A list whose only entry is an IPv4 address in dotted decimal gives
/// exactly that address and refuses nothing.
pub proof fn lemma_single_address_list(a: u8, b: u8, c: u8, d: u8, split_on_comma: bool, max_expand: usize)
    ensures
        accepted_ips(entries_of(dotted_text(a, b, c, d), split_on_comma), max_expand)
            == Set::<IpAddress>::empty().insert(IpAddress::V4(ipv4_value(a, b, c, d) as u32)),
        rejections(entries_of(dotted_text(a, b, c, d), split_on_comma), max_expand) == Seq::<RejectionView>::empty(),
{
    let t = dotted_text(a, b, c, d);
    let ip = IpAddress::V4(ipv4_value(a, b, c, d) as u32);
    lemma_ipv4_round_trip(a, b, c, d);
    lemma_dotted_text_chars(a, b, c, d);
    let sep = entry_separator(split_on_comma);
    assert(!t.contains(sep) && !t.contains('/') && t[0] != '#') by {
        if t.contains(sep) || t.contains('/') {
            let i = choose|i: int| 0 <= i < t.len() && (t[i] == sep || t[i] == '/');
            assert(is_dec_digit(t[i]) || t[i] == '.');
        }
    }
    lemma_split_no_separator(t, sep);
    assert(trimmed(t) == t);
    let e = entries_of(t, split_on_comma);
    assert(e =~= seq![t]);
    assert(e.drop_last() =~= Seq::<Seq<char>>::empty());
    assert(e.last() == t);
    assert(accepted_ips(e.drop_last(), max_expand) == Set::<IpAddress>::empty());
    assert(rejections(e.drop_last(), max_expand) == Seq::<RejectionView>::empty());
    assert(entry_outcome(t, max_expand) == EntryOutcome::Accept(seq![ip]));
    assert(accepted_ips(e, max_expand) == Set::<IpAddress>::empty() + seq![ip].to_set());
    assert(rejections(e, max_expand) == Seq::<RejectionView>::empty());
    assert(seq![ip].to_set() =~= Set::<IpAddress>::empty().insert(ip)) by {
        assert(seq![ip][0] == ip);
    }
    assert(Set::<IpAddress>::empty() + seq![ip].to_set() =~= Set::<IpAddress>::empty().insert(ip));
}

/// An entry starting with `#` (after trimming) is a comment: it gives no
/// address and no refusal.
pub proof fn lemma_comment_entry(x: Seq<char>, max_expand: usize)
    ensures
        entry_outcome(seq!['#'] + x, max_expand) == EntryOutcome::Skip,
{
    assert((seq!['#'] + x)[0] == '#');
}

pub open spec fn rejection_views(v: Seq<Rejection>) -> Seq<RejectionView> {
    v.map_values(|r: Rejection| r@)
}

/// Reads the addresses of a list: `text` is cut at `,` (when
/// `split_on_comma`) or at line breaks, each entry is trimmed, empty
/// entries and entries starting with `#` are passed over, an entry holding
/// `/` is a CIDR block giving at most `max_cidr_expand` addresses, and any
/// other entry is one IP address. The addresses come out in increasing
/// order, each once; the entries that give none are reported in order.
pub fn collect_ips(text: &str, split_on_comma: bool, max_cidr_expand: usize) -> (out: IpCollection)
    ensures
        strictly_sorted(out.ips@),
        out.ips@.to_set() == accepted_ips(entries_of(text@, split_on_comma), max_cidr_expand),
        rejection_views(out.rejected@) == rejections(entries_of(text@, split_on_comma), max_cidr_expand),
{
    let cs = chars_of(text);
    let sep = if split_on_comma {
        ','
    } else {
        '\n'
    };
    let fields = split(&cs, sep);
    let ghost entries = entries_of(text@, split_on_comma);
    assert(fields.deep_view() == split_on(text@, entry_separator(split_on_comma)));
    let mut set = IpSet::new();
    let mut rejected: Vec<Rejection> = Vec::new();
    let mut i: usize = 0;
    assert(entries.take(0) =~= Seq::<Seq<char>>::empty());
    assert forall|k: int| 0 <= k < fields.len() implies #[trigger] entries[k] == trimmed(fields@[k]@) by {
        assert(fields.deep_view()[k] == fields@[k]@);
    }
    assert(rejection_views(rejected@) =~= Seq::<RejectionView>::empty());
    while i < fields.len()
        invariant
            i <= fields.len(),
            entries.len() == fields.len(),
            entries == entries_of(text@, split_on_comma),
            forall|k: int| 0 <= k < fields.len() ==> #[trigger] entries[k] == trimmed(fields@[k]@),
            set.wf(),
            set@ == accepted_ips(entries.take(i as int), max_cidr_expand),
            rejection_views(rejected@) == rejections(entries.take(i as int), max_cidr_expand),
        decreases fields.len() - i,
    {
        let e = trim(&fields[i]);
        let ghost prefix = entries.take(i as int);
        let ghost next = entries.take(i + 1);
        assert(next.drop_last() == prefix);
        assert(next.last() == e@);
        let ghost old_ips = set@;
        let ghost old_rej = rejected@;
        if e.len() == 0 || e[0] == '#' {
            // an empty entry or a comment gives nothing
        } else if contains_char(&e, '/') {
            match expand_cidr_chars(&e, max_cidr_expand) {
                Ok(block) => {
                    let mut k: usize = 0;
                    while k < block.len()
                        invariant
                            k <= block.len(),
                            set.wf(),
                            set@ == old_ips + block@.take(k as int).to_set(),
                        decreases block.len() - k,
                    {
                        set.insert(block[k]);
                        k = k + 1;
                        proof {
                            let prev = block@.take(k - 1);
                            let cur = block@.take(k as int);
                            let x = block@[k - 1];
                            assert(cur.to_set() =~= prev.to_set().insert(x)) by {
                                assert forall|z: IpAddress| cur.to_set().contains(z) implies prev.to_set().insert(x).contains(z) by {
                                    let j = choose|j: int| 0 <= j < cur.len() && cur[j] == z;
                                    if j < k - 1 {
                                        assert(prev[j] == z);
                                    }
                                }
                                assert forall|z: IpAddress| prev.to_set().insert(x).contains(z) implies cur.to_set().contains(z) by {
                                    if z == x {
                                        assert(cur[k - 1] == z);
                                    } else {
                                        let j = choose|j: int| 0 <= j < prev.len() && prev[j] == z;
                                        assert(cur[j] == z);
                                    }
                                }
                            }
                        }
                        assert(set@ =~= old_ips + block@.take(k as int).to_set());
                    }
                    assert(block@.take(block.len() as int) == block@);
                },
                Err(error) => {
                    let r = Rejection::BadCidr { entry: string_from_chars(&e), error };
                    rejected.push(r);
                    assert(rejection_views(rejected@) =~= rejection_views(old_rej).push(r@));
                },
            }
        } else {
            match parse_ip_chars(&e) {
                Some(ip) => {
                    set.insert(ip);
                    assert(seq![ip].to_set() =~= Set::<IpAddress>::empty().insert(ip)) by {
                        assert(seq![ip][0] == ip);
                    }
                    assert(set@ =~= old_ips + seq![ip].to_set());
                },
                None => {
                    let r = Rejection::BadIp { entry: string_from_chars(&e) };
                    rejected.push(r);
                    assert(rejection_views(rejected@) =~= rejection_views(old_rej).push(r@));
                },
            }
        }
        i = i + 1;
    }
    assert(entries.take(fields.len() as int) == entries);
    let ips = set.to_sorted_vec();
    IpCollection { ips, rejected }
}

} // verus!
