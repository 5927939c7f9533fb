//! Filter state: six free-text criteria, the flow and direction
//! classifiers, and the per-entry match rules. All criteria are ANDed;
//! an empty criterion never rejects.
use vstd::prelude::*;

use crate::entry::EntrySpec;
use crate::text::{
    chars_of, contains_chars, contains_chars_ci, contains_ci, contains_seq, dec_chars, eq_chars,
    parse_u16_chars, parse_u16_seq, trim_chars, trim_seq, u16_chars,
};

verus! {

/// The six free-text criteria.
#[derive(Clone, Copy, PartialEq, Eq, Structural, Debug)]
pub enum FilterField {
    Service,
    Port,
    Ip,
    Action,
    Proto,
    Text,
}

/// The label shown for a criterion.
pub open spec fn field_label(f: FilterField) -> Seq<char> {
    match f {
        FilterField::Service => "service"@,
        FilterField::Port => "port"@,
        FilterField::Ip => "ip"@,
        FilterField::Action => "action"@,
        FilterField::Proto => "protocol"@,
        FilterField::Text => "text"@,
    }
}

impl FilterField {
    pub fn label(self) -> (r: &'static str)
        ensures
            r@ == field_label(self),
    {
        match self {
            FilterField::Service => "service",
            FilterField::Port => "port",
            FilterField::Ip => "ip",
            FilterField::Action => "action",
            FilterField::Proto => "protocol",
            FilterField::Text => "text",
        }
    }
}

/// The three-valued flow classifier.
#[derive(Clone, Copy, PartialEq, Eq, Structural, Debug)]
pub enum FlowFilter {
    All,
    LocalToLocal,
    LocalToExternal,
}

impl Default for FlowFilter {
    /// The permissive setting: all flows.
    fn default() -> (r: Self)
        ensures
            r == FlowFilter::All,
    {
        FlowFilter::All
    }
}

impl FlowFilter {
    /// The next setting in cycling order.
    pub fn next(self) -> (r: Self)
        ensures
            r == (match self {
                FlowFilter::All => FlowFilter::LocalToLocal,
                FlowFilter::LocalToLocal => FlowFilter::LocalToExternal,
                FlowFilter::LocalToExternal => FlowFilter::All,
            }),
    {
        match self {
            FlowFilter::All => FlowFilter::LocalToLocal,
            FlowFilter::LocalToLocal => FlowFilter::LocalToExternal,
            FlowFilter::LocalToExternal => FlowFilter::All,
        }
    }

    pub fn chip(self) -> (r: &'static str)
        ensures
            r@ == (match self {
                FlowFilter::All => "[flow: *]"@,
                FlowFilter::LocalToLocal => "[flow: local->local]"@,
                FlowFilter::LocalToExternal => "[flow: local->external]"@,
            }),
    {
        match self {
            FlowFilter::All => "[flow: *]",
            FlowFilter::LocalToLocal => "[flow: local->local]",
            FlowFilter::LocalToExternal => "[flow: local->external]",
        }
    }

    pub fn label(self) -> (r: &'static str)
        ensures
            r@ == (match self {
                FlowFilter::All => "all"@,
                FlowFilter::LocalToLocal => "local->local"@,
                FlowFilter::LocalToExternal => "local->external"@,
            }),
    {
        match self {
            FlowFilter::All => "all",
            FlowFilter::LocalToLocal => "local->local",
            FlowFilter::LocalToExternal => "local->external",
        }
    }
}

/// The four-valued direction classifier.
#[derive(Clone, Copy, PartialEq, Eq, Structural, Debug)]
pub enum DirectionFilter {
    Both,
    In,
    Out,
    Forwarded,
}

impl Default for DirectionFilter {
    /// The permissive setting: both directions.
    fn default() -> (r: Self)
        ensures
            r == DirectionFilter::Both,
    {
        DirectionFilter::Both
    }
}

impl DirectionFilter {
    /// The next setting in cycling order.
    pub fn next(self) -> (r: Self)
        ensures
            r == (match self {
                DirectionFilter::Both => DirectionFilter::In,
                DirectionFilter::In => DirectionFilter::Out,
                DirectionFilter::Out => DirectionFilter::Forwarded,
                DirectionFilter::Forwarded => DirectionFilter::Both,
            }),
    {
        match self {
            DirectionFilter::Both => DirectionFilter::In,
            DirectionFilter::In => DirectionFilter::Out,
            DirectionFilter::Out => DirectionFilter::Forwarded,
            DirectionFilter::Forwarded => DirectionFilter::Both,
        }
    }

    pub fn chip(self) -> (r: &'static str)
        ensures
            r@ == (match self {
                DirectionFilter::Both => "[dir: both]"@,
                DirectionFilter::In => "[dir: in]"@,
                DirectionFilter::Out => "[dir: out]"@,
                DirectionFilter::Forwarded => "[dir: fwd]"@,
            }),
    {
        match self {
            DirectionFilter::Both => "[dir: both]",
            DirectionFilter::In => "[dir: in]",
            DirectionFilter::Out => "[dir: out]",
            DirectionFilter::Forwarded => "[dir: fwd]",
        }
    }

    pub fn label(self) -> (r: &'static str)
        ensures
            r@ == (match self {
                DirectionFilter::Both => "in+out"@,
                DirectionFilter::In => "in"@,
                DirectionFilter::Out => "out"@,
                DirectionFilter::Forwarded => "forwarded"@,
            }),
    {
        match self {
            DirectionFilter::Both => "in+out",
            DirectionFilter::In => "in",
            DirectionFilter::Out => "out",
            DirectionFilter::Forwarded => "forwarded",
        }
    }
}

/// Model of the six criteria.
pub struct FiltersSpec {
    pub service: Seq<char>,
    pub port: Seq<char>,
    pub ip: Seq<char>,
    pub action: Seq<char>,
    pub proto: Seq<char>,
    pub text: Seq<char>,
}

/// The six free-text criteria; an empty string means the criterion is
/// off.
pub struct Filters {
    pub service: String,
    pub port: String,
    pub ip: String,
    pub action: String,
    pub proto: String,
    pub text: String,
}

impl View for Filters {
    type V = FiltersSpec;

    open spec fn view(&self) -> FiltersSpec {
        FiltersSpec {
            service: self.service@,
            port: self.port@,
            ip: self.ip@,
            action: self.action@,
            proto: self.proto@,
            text: self.text@,
        }
    }
}

impl Default for Filters {
    /// All criteria off.
    fn default() -> (r: Self)
        ensures
            r@.service.len() == 0,
            r@.port.len() == 0,
            r@.ip.len() == 0,
            r@.action.len() == 0,
            r@.proto.len() == 0,
            r@.text.len() == 0,
    {
        Filters {
            service: String::new(),
            port: String::new(),
            ip: String::new(),
            action: String::new(),
            proto: String::new(),
            text: String::new(),
        }
    }
}

/// The criterion text stored for a field.
pub open spec fn field_of(f: FiltersSpec, field: FilterField) -> Seq<char> {
    match field {
        FilterField::Service => f.service,
        FilterField::Port => f.port,
        FilterField::Ip => f.ip,
        FilterField::Action => f.action,
        FilterField::Proto => f.proto,
        FilterField::Text => f.text,
    }
}

/// The criteria with one field replaced.
pub open spec fn with_field(f: FiltersSpec, field: FilterField, v: Seq<char>) -> FiltersSpec {
    match field {
        FilterField::Service => FiltersSpec { service: v, ..f },
        FilterField::Port => FiltersSpec { port: v, ..f },
        FilterField::Ip => FiltersSpec { ip: v, ..f },
        FilterField::Action => FiltersSpec { action: v, ..f },
        FilterField::Proto => FiltersSpec { proto: v, ..f },
        FilterField::Text => FiltersSpec { text: v, ..f },
    }
}

/// An optional text field, an absent one counting as empty.
pub open spec fn opt_or_empty(o: Option<Seq<char>>) -> Seq<char> {
    match o {
        Some(s) => s,
        None => Seq::empty(),
    }
}

/// The decimal rendering of an optional port, an absent one rendering
/// as the empty string.
pub open spec fn port_str(p: Option<u16>) -> Seq<char> {
    match p {
        Some(x) => dec_chars(x as int),
        None => Seq::empty(),
    }
}

/// The port criterion: a numeric criterion must equal the source or
/// destination port exactly; any other nonempty text falls back to
/// substring containment against the ports' decimal forms.
pub open spec fn spec_port_match(p: Seq<char>, e: EntrySpec) -> bool {
    let w = trim_seq(p);
    match parse_u16_seq(w) {
        Some(x) => e.src_port == Some(x) || e.dst_port == Some(x),
        None => contains_seq(port_str(e.src_port), w) || contains_seq(port_str(e.dst_port), w),
    }
}

/// Whether an entry passes all six criteria. Every nonempty criterion
/// must match its field, case-insensitively for the text criteria.
pub open spec fn spec_filters_match(f: FiltersSpec, e: EntrySpec) -> bool {
    &&& (f.service.len() > 0 ==> contains_ci(opt_or_empty(e.service), f.service))
    &&& (f.port.len() > 0 ==> spec_port_match(f.port, e))
    &&& (f.ip.len() > 0 ==> contains_ci(opt_or_empty(e.src_ip), f.ip) || contains_ci(
        opt_or_empty(e.dst_ip),
        f.ip,
    ))
    &&& (f.action.len() > 0 ==> contains_ci(e.action, f.action))
    &&& (f.proto.len() > 0 ==> contains_ci(opt_or_empty(e.proto), f.proto))
    &&& (f.text.len() > 0 ==> contains_ci(e.raw, f.text))
}

fn opt_field_chars(o: &Option<String>) -> (r: Vec<char>)
    ensures
        r@ == opt_or_empty(o.deep_view()),
{
    match o {
        Some(s) => chars_of(s.as_str()),
        None => Vec::new(),
    }
}

fn port_chars(p: &Option<u16>) -> (r: Vec<char>)
    ensures
        r@ == port_str(*p),
{
    match p {
        Some(x) => u16_chars(*x),
        None => Vec::new(),
    }
}

impl Filters {
    /// How many criteria are active.
    pub fn active_count(&self) -> (r: usize)
        ensures
            r == (if self@.service.len() > 0 {
                1int
            } else {
                0int
            }) + (if self@.port.len() > 0 {
                1int
            } else {
                0int
            }) + (if self@.ip.len() > 0 {
                1int
            } else {
                0int
            }) + (if self@.action.len() > 0 {
                1int
            } else {
                0int
            }) + (if self@.proto.len() > 0 {
                1int
            } else {
                0int
            }) + (if self@.text.len() > 0 {
                1int
            } else {
                0int
            }),
    {
        let mut n: usize = 0;
        if !self.service.as_str().is_empty() {
            n = n + 1;
        }
        if !self.port.as_str().is_empty() {
            n = n + 1;
        }
        if !self.ip.as_str().is_empty() {
            n = n + 1;
        }
        if !self.action.as_str().is_empty() {
            n = n + 1;
        }
        if !self.proto.as_str().is_empty() {
            n = n + 1;
        }
        if !self.text.as_str().is_empty() {
            n = n + 1;
        }
        n
    }

    /// Whether an entry passes all six criteria.
    pub fn matches(&self, entry: &crate::entry::LogEntry) -> (r: bool)
        ensures
            r == spec_filters_match(self@, entry@),
    {
        if !self.service.as_str().is_empty() {
            let hay = opt_field_chars(&entry.service);
            let needle = chars_of(self.service.as_str());
            if !contains_chars_ci(&hay, &needle) {
                return false;
            }
        }
        if !self.port.as_str().is_empty() {
            let p = chars_of(self.port.as_str());
            let w = trim_chars(&p);
            let port_ok = match parse_u16_chars(&w) {
                Some(x) => {
                    (match entry.src_port {
                        Some(sp) => sp == x,
                        None => false,
                    }) || (match entry.dst_port {
                        Some(dp) => dp == x,
                        None => false,
                    })
                },
                None => {
                    let src = port_chars(&entry.src_port);
                    let dst = port_chars(&entry.dst_port);
                    contains_chars(&src, &w) || contains_chars(&dst, &w)
                },
            };
            if !port_ok {
                return false;
            }
        }
        if !self.ip.as_str().is_empty() {
            let needle = chars_of(self.ip.as_str());
            let src = opt_field_chars(&entry.src_ip);
            let dst = opt_field_chars(&entry.dst_ip);
            if !contains_chars_ci(&src, &needle) && !contains_chars_ci(&dst, &needle) {
                return false;
            }
        }
        if !self.action.as_str().is_empty() {
            let hay = chars_of(entry.action.as_str());
            let needle = chars_of(self.action.as_str());
            if !contains_chars_ci(&hay, &needle) {
                return false;
            }
        }
        if !self.proto.as_str().is_empty() {
            let hay = opt_field_chars(&entry.proto);
            let needle = chars_of(self.proto.as_str());
            if !contains_chars_ci(&hay, &needle) {
                return false;
            }
        }
        if !self.text.as_str().is_empty() {
            let hay = chars_of(entry.raw.as_str());
            let needle = chars_of(self.text.as_str());
            if !contains_chars_ci(&hay, &needle) {
                return false;
            }
        }
        true
    }
}

/// Model of the whole per-entry acceptance state.
pub struct ViewFilterSpec {
    pub filters: FiltersSpec,
    pub show_local_src: bool,
    pub show_wan_src: bool,
    pub flow_filter: FlowFilter,
    pub direction_filter: DirectionFilter,
    pub selected_interface: Option<Seq<char>>,
}

/// Everything that decides which entries are visible: the six criteria,
/// the two source-visibility toggles, the flow and direction
/// classifiers, and the optional selected interface.
pub struct ViewFilter {
    pub filters: Filters,
    pub show_local_src: bool,
    pub show_wan_src: bool,
    pub flow_filter: FlowFilter,
    pub direction_filter: DirectionFilter,
    pub selected_interface: Option<String>,
}

impl View for ViewFilter {
    type V = ViewFilterSpec;

    open spec fn view(&self) -> ViewFilterSpec {
        ViewFilterSpec {
            filters: self.filters@,
            show_local_src: self.show_local_src,
            show_wan_src: self.show_wan_src,
            flow_filter: self.flow_filter,
            direction_filter: self.direction_filter,
            selected_interface: self.selected_interface.deep_view(),
        }
    }
}

/// Whether one entry passes every active criterion: the selected
/// interface must match the entry's in or out interface exactly, hidden
/// source classes reject, the flow and direction classifiers must
/// match, and every nonempty text criterion must match its field.
pub open spec fn spec_entry_visible(vf: ViewFilterSpec, e: EntrySpec) -> bool {
    &&& (match vf.selected_interface {
        Some(n) => e.in_iface == Some(n) || e.out_iface == Some(n),
        None => true,
    })
    &&& (!vf.show_local_src ==> !crate::classify::is_local_seq(e.src_ip))
    &&& (!vf.show_wan_src ==> !crate::classify::is_wan_seq(e.src_ip))
    &&& crate::classify::spec_matches_flow(vf.flow_filter, e)
    &&& crate::classify::spec_matches_direction(vf.direction_filter, e)
    &&& spec_filters_match(vf.filters, e)
}

/// The visible indices among the first `i` entries, in entry order.
pub open spec fn vis_upto(entries: Seq<EntrySpec>, vf: ViewFilterSpec, i: int) -> Seq<int>
    decreases i,
{
    if i <= 0 {
        Seq::empty()
    } else {
        vis_upto(entries, vf, i - 1) + if spec_entry_visible(vf, entries[i - 1]) {
            seq![i - 1]
        } else {
            Seq::empty()
        }
    }
}

/// The ordered visible indices of an entry sequence: filtering keeps
/// the input order and never reorders.
pub open spec fn spec_visible_indices(entries: Seq<EntrySpec>, vf: ViewFilterSpec) -> Seq<int> {
    vis_upto(entries, vf, entries.len() as int)
}

fn str_opt_eq(a: &Option<String>, b: &String) -> (r: bool)
    ensures
        r == (a.deep_view() == Some(b@)),
{
    match a {
        Some(s) => {
            let e = s.as_str().unicode_len() == b.as_str().unicode_len() && eq_chars(
                &chars_of(s.as_str()),
                &chars_of(b.as_str()),
            );
            proof {
                if a.deep_view() == Some(b@) {
                    assert(s@ == b@);
                }
            }
            e
        },
        None => false,
    }
}

/// Whether one entry is visible under the given filter state.
pub fn entry_visible(vf: &ViewFilter, entry: &crate::entry::LogEntry) -> (r: bool)
    ensures
        r == spec_entry_visible(vf@, entry@),
{
    match &vf.selected_interface {
        Some(name) => {
            let in_match = str_opt_eq(&entry.in_iface, name);
            let out_match = str_opt_eq(&entry.out_iface, name);
            if !in_match && !out_match {
                return false;
            }
        },
        None => {},
    }
    if !vf.show_local_src {
        let local = match &entry.src_ip {
            Some(s) => crate::classify::is_local_ip(Some(s.as_str())),
            None => crate::classify::is_local_ip(None),
        };
        if local {
            return false;
        }
    }
    if !vf.show_wan_src {
        let wan = match &entry.src_ip {
            Some(s) => crate::classify::is_wan_ip(Some(s.as_str())),
            None => crate::classify::is_wan_ip(None),
        };
        if wan {
            return false;
        }
    }
    if !crate::classify::matches_flow_filter(vf.flow_filter, entry) {
        return false;
    }
    if !crate::classify::matches_direction_filter(vf.direction_filter, entry) {
        return false;
    }
    vf.filters.matches(entry)
}

/// The ordered subsequence of indices of the entries that pass every
/// active criterion, preserving entry order.
pub fn visible_indices(entries: &Vec<crate::entry::LogEntry>, vf: &ViewFilter) -> (r: Vec<usize>)
    ensures
        r@.map_values(|u: usize| u as int) == spec_visible_indices(entries.deep_view(), vf@),
        forall|j: int| 0 <= j < r@.len() ==> (#[trigger] r@[j]) < entries@.len(),
{
    let n = entries.len();
    let mut r: Vec<usize> = Vec::new();
    let mut i: usize = 0;
    while i < n
        invariant
            i <= n,
            n == entries@.len(),
            entries.deep_view().len() == n,
            r@.map_values(|u: usize| u as int) == vis_upto(entries.deep_view(), vf@, i as int),
            forall|j: int| 0 <= j < r@.len() ==> (#[trigger] r@[j]) < n,
        decreases n - i,
    {
        proof {
            assert(entries.deep_view()[i as int] == entries@[i as int]@);
        }
        if entry_visible(vf, &entries[i]) {
            let ghost pre = r@;
            r.push(i);
            proof {
                assert(r@.map_values(|u: usize| u as int) =~= pre.map_values(|u: usize| u as int)
                    + seq![i as int]);
            }
        }
        i = i + 1;
        proof {
            assert(vis_upto(entries.deep_view(), vf@, i as int) == vis_upto(
                entries.deep_view(),
                vf@,
                i - 1,
            ) + (if spec_entry_visible(vf@, entries.deep_view()[i - 1]) {
                seq![i - 1]
            } else {
                Seq::<int>::empty()
            }));
            assert(r@.map_values(|u: usize| u as int) =~= vis_upto(
                entries.deep_view(),
                vf@,
                i as int,
            ));
        }
    }
    r
}

/// Filtering never reorders: the visible indices point into the entry
/// sequence and are strictly increasing, so the visible rows keep the
/// newest-first order of the collection.
pub proof fn lemma_visible_indices_ordered(entries: Seq<EntrySpec>, vf: ViewFilterSpec, i: int)
    ensures
        forall|j: int|
            0 <= j < vis_upto(entries, vf, i).len() ==> 0 <= #[trigger] vis_upto(entries, vf, i)[j]
                < i,
        forall|j: int, k: int|
            0 <= j < k < vis_upto(entries, vf, i).len() ==> #[trigger] vis_upto(entries, vf, i)[j]
                < #[trigger] vis_upto(entries, vf, i)[k],
    decreases i,
{
    if i > 0 {
        lemma_visible_indices_ordered(entries, vf, i - 1);
        let prev = vis_upto(entries, vf, i - 1);
        let cur = vis_upto(entries, vf, i);
        assert forall|j: int| 0 <= j < cur.len() implies 0 <= #[trigger] cur[j] < i by {
            if j < prev.len() {
                assert(cur[j] == prev[j]);
            } else {
                assert(cur[j] == i - 1);
            }
        }
        assert forall|j: int, k: int| 0 <= j < k < cur.len() implies #[trigger] cur[j]
            < #[trigger] cur[k] by {
            if k < prev.len() {
                assert(cur[j] == prev[j] && cur[k] == prev[k]);
            } else {
                assert(cur[k] == i - 1);
                assert(cur[j] == prev[j]);
                assert(prev[j] < i - 1 || prev[j] <= i - 1);
            }
        }
    }
}

/// A pointwise-stronger filter state never shows more rows: when every
/// entry visible under `g` is visible under `f`, the visible count
/// under `g` is at most the count under `f`.
pub proof fn lemma_visible_monotone(entries: Seq<EntrySpec>, f: ViewFilterSpec, g: ViewFilterSpec)
    requires
        forall|e: EntrySpec| #[trigger] spec_entry_visible(g, e) ==> spec_entry_visible(f, e),
    ensures
        spec_visible_indices(entries, g).len() <= spec_visible_indices(entries, f).len(),
{
    lemma_vis_upto_monotone(entries, f, g, entries.len() as int);
}

proof fn lemma_vis_upto_monotone(
    entries: Seq<EntrySpec>,
    f: ViewFilterSpec,
    g: ViewFilterSpec,
    i: int,
)
    requires
        forall|e: EntrySpec| #[trigger] spec_entry_visible(g, e) ==> spec_entry_visible(f, e),
    ensures
        vis_upto(entries, g, i).len() <= vis_upto(entries, f, i).len(),
    decreases i,
{
    if i > 0 {
        lemma_vis_upto_monotone(entries, f, g, i - 1);
    }
}

/// Turning on one free-text criterion that was off never increases the
/// visible count, whatever its new value.
pub proof fn lemma_add_text_criterion_monotone(
    entries: Seq<EntrySpec>,
    f: ViewFilterSpec,
    field: FilterField,
    v: Seq<char>,
)
    requires
        field_of(f.filters, field).len() == 0,
    ensures
        ({
            let g = ViewFilterSpec { filters: with_field(f.filters, field, v), ..f };
            spec_visible_indices(entries, g).len() <= spec_visible_indices(entries, f).len()
        }),
{
    let g = ViewFilterSpec { filters: with_field(f.filters, field, v), ..f };
    assert forall|e: EntrySpec| #[trigger] spec_entry_visible(g, e) implies spec_entry_visible(
        f,
        e,
    ) by {
        assert(spec_filters_match(g.filters, e) ==> spec_filters_match(f.filters, e));
    }
    lemma_visible_monotone(entries, f, g);
}

/// Selecting a specific interface where none was selected never
/// increases the visible count.
pub proof fn lemma_select_interface_monotone(
    entries: Seq<EntrySpec>,
    f: ViewFilterSpec,
    name: Seq<char>,
)
    requires
        f.selected_interface is None,
    ensures
        ({
            let g = ViewFilterSpec { selected_interface: Some(name), ..f };
            spec_visible_indices(entries, g).len() <= spec_visible_indices(entries, f).len()
        }),
{
    let g = ViewFilterSpec { selected_interface: Some(name), ..f };
    assert forall|e: EntrySpec| #[trigger] spec_entry_visible(g, e) implies spec_entry_visible(
        f,
        e,
    ) by {}
    lemma_visible_monotone(entries, f, g);
}

/// Hiding one source class that was shown never increases the visible
/// count.
pub proof fn lemma_hide_source_monotone(
    entries: Seq<EntrySpec>,
    f: ViewFilterSpec,
    hide_local: bool,
)
    requires
        hide_local ==> f.show_local_src,
        !hide_local ==> f.show_wan_src,
    ensures
        ({
            let g = if hide_local {
                ViewFilterSpec { show_local_src: false, ..f }
            } else {
                ViewFilterSpec { show_wan_src: false, ..f }
            };
            spec_visible_indices(entries, g).len() <= spec_visible_indices(entries, f).len()
        }),
{
    let g = if hide_local {
        ViewFilterSpec { show_local_src: false, ..f }
    } else {
        ViewFilterSpec { show_wan_src: false, ..f }
    };
    assert forall|e: EntrySpec| #[trigger] spec_entry_visible(g, e) implies spec_entry_visible(
        f,
        e,
    ) by {}
    lemma_visible_monotone(entries, f, g);
}

/// Narrowing the flow classifier from `All`, or the direction
/// classifier from `Both`, never increases the visible count.
pub proof fn lemma_narrow_classifier_monotone(
    entries: Seq<EntrySpec>,
    f: ViewFilterSpec,
    flow: FlowFilter,
    direction: DirectionFilter,
)
    requires
        f.flow_filter == FlowFilter::All,
        f.direction_filter == DirectionFilter::Both,
    ensures
        ({
            let g = ViewFilterSpec { flow_filter: flow, direction_filter: direction, ..f };
            spec_visible_indices(entries, g).len() <= spec_visible_indices(entries, f).len()
        }),
{
    let g = ViewFilterSpec { flow_filter: flow, direction_filter: direction, ..f };
    assert forall|e: EntrySpec| #[trigger] spec_entry_visible(g, e) implies spec_entry_visible(
        f,
        e,
    ) by {}
    lemma_visible_monotone(entries, f, g);
}

} // verus!
