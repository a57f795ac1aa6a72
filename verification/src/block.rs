//! Grouping of tensors into logical transformer blocks by their names. A block
//! is a label only: it says nothing about execution order or residency.

use vstd::prelude::*;
use vstd::string::StringExecFns;

use crate::descriptor;
use crate::descriptor::{DescriptorView, TensorDescriptor};
use crate::text;
use crate::text::{decimal_text, read_number, same_text, to_chars};

verus! {

/// Label of the tensors that match no configured family.
pub const UNASSIGNED: &'static str = "shared/unassigned";

/// One family of blocks, such as `transformer_blocks.<n>.*`. The label is both
/// what a name has to start with and what block ids are made of.
#[derive(Debug)]
pub struct BlockFamily {
    pub label: String,
}

impl View for BlockFamily {
    type V = Seq<char>;

    open spec fn view(&self) -> Seq<char> {
        self.label@
    }
}

impl Clone for BlockFamily {
    fn clone(&self) -> (r: Self)
        ensures
            r@ == self@,
    {
        BlockFamily { label: self.label.clone() }
    }
}

impl BlockFamily {
    pub fn new(label: &str) -> (r: Self)
        ensures
            r@ == label@,
    {
        BlockFamily { label: label.to_owned() }
    }
}

/// An ordered list of families and an optional prefix that names share, such
/// as `model` in `model.layers.0.*`. The first family that matches wins.
#[derive(Debug)]
pub struct BlockConfig {
    /// Considered only for names that start with the whole prefix and a dot;
    /// every other name is matched as it stands.
    pub model_prefix: Option<String>,
    pub families: Vec<BlockFamily>,
}

impl Clone for BlockConfig {
    fn clone(&self) -> (r: Self)
        ensures
            r@ == self@,
    {
        let families = self.families.clone();
        assert(families@.map_values(|f: BlockFamily| f@) =~= self.families@.map_values(
            |f: BlockFamily| f@,
        ));
        let model_prefix = match &self.model_prefix {
            Some(p) => Some(p.clone()),
            None => None,
        };
        BlockConfig { model_prefix, families }
    }
}

/// What a [`BlockConfig`] says.
#[verifier::ext_equal]
pub struct ConfigView {
    pub model_prefix: Option<Seq<char>>,
    pub families: Seq<Seq<char>>,
}

impl View for BlockConfig {
    type V = ConfigView;

    open spec fn view(&self) -> ConfigView {
        ConfigView {
            model_prefix: match self.model_prefix {
                Some(p) => Some(p@),
                None => None,
            },
            families: self.families@.map_values(|f: BlockFamily| f@),
        }
    }
}

/// The part of a name that is matched against the families.
pub open spec fn candidate(model_prefix: Option<Seq<char>>, name: Seq<char>) -> Seq<char> {
    match model_prefix {
        Some(p) => if p.push('.').is_prefix_of(name) {
            name.skip(p.len() as int + 1)
        } else {
            name
        },
        None => name,
    }
}

/// Where the dotted segment that holds position `from` ends.
pub open spec fn segment_end(s: Seq<char>, from: int) -> int
    decreases s.len() - from,
{
    if from >= s.len() || s[from] == '.' {
        from
    } else {
        segment_end(s, from + 1)
    }
}

/// The number that a segment spells with digits alone, if a `u64` holds it.
pub open spec fn segment_number(segment: Seq<char>) -> Option<u64> {
    if segment.len() > 0 && text::all_digits(segment) && text::digits_value(segment) <= u64::MAX {
        Some(text::digits_value(segment) as u64)
    } else {
        None
    }
}

/// The index that a name has within a family: the name is the label, a dot and
/// a segment that spells a number.
pub open spec fn family_index(label: Seq<char>, name: Seq<char>) -> Option<u64> {
    let from = label.len() as int + 1;
    if label.push('.').is_prefix_of(name) {
        segment_number(name.subrange(from, segment_end(name, from)))
    } else {
        None
    }
}

/// The first family at or behind `from` in which a name has an index.
pub open spec fn first_match(families: Seq<Seq<char>>, name: Seq<char>, from: int) -> Option<
    (int, u64),
>
    decreases families.len() - from,
{
    if from >= families.len() {
        None
    } else {
        match family_index(families[from], name) {
            Some(index) => Some((from, index)),
            None => first_match(families, name, from + 1),
        }
    }
}

/// The label and index of the block that a tensor belongs to, if any.
pub open spec fn matched(config: ConfigView, name: Seq<char>) -> Option<(Seq<char>, u64)> {
    match first_match(config.families, candidate(config.model_prefix, name), 0) {
        Some((at, index)) => Some((config.families[at], index)),
        None => None,
    }
}

/// The id of a family's block. It leaves the shared prefix out, so that ids
/// are the same with and without it.
pub open spec fn spec_block_id(label: Seq<char>, index: u64) -> Seq<char> {
    label.push('.') + text::decimal(index as int)
}

pub proof fn lemma_segment_end(s: Seq<char>, from: int)
    requires
        0 <= from <= s.len(),
    ensures
        from <= segment_end(s, from) <= s.len(),
        forall|i: int| from <= i < segment_end(s, from) ==> s[i] != '.',
        segment_end(s, from) < s.len() ==> s[segment_end(s, from)] == '.',
    decreases s.len() - from,
{
    if from < s.len() && s[from] != '.' {
        lemma_segment_end(s, from + 1);
    }
}

/// Whether `s` starts with `label` and a dot.
fn starts_with_label(s: &Vec<char>, label: &Vec<char>) -> (r: bool)
    ensures
        r == label@.push('.').is_prefix_of(s@),
        r ==> label@.len() < s@.len() <= usize::MAX,
{
    let n: usize = label.len();
    let ghost lead = label@.push('.');
    if n >= s.len() {
        return false;
    }
    let mut i: usize = 0;
    while i < n
        invariant
            i <= n < s@.len(),
            n == label@.len(),
            lead == label@.push('.'),
            forall|j: int| 0 <= j < i ==> s@[j] == lead[j],
        decreases n - i,
    {
        assert(lead[i as int] == label@[i as int]);
        if s[i] != label[i] {
            assert(s@.subrange(0, lead.len() as int)[i as int] != lead[i as int]);
            return false;
        }
        i = i + 1;
    }
    assert(lead[n as int] == '.');
    if s[n] != '.' {
        assert(s@.subrange(0, lead.len() as int)[n as int] != lead[n as int]);
        return false;
    }
    assert(s@.subrange(0, lead.len() as int) =~= lead);
    true
}

/// The index that a name has within a family.
fn index_in_family(name: &Vec<char>, label: &str) -> (r: Option<u64>)
    ensures
        r == family_index(label@, name@),
{
    let label = to_chars(label);
    if !starts_with_label(name, &label) {
        return None;
    }
    let from: usize = label.len() + 1;
    let mut end: usize = from;
    while end < name.len() && name[end] != '.'
        invariant
            from <= end <= name@.len(),
            segment_end(name@, from as int) == segment_end(name@, end as int),
        decreases name@.len() - end,
    {
        end = end + 1;
    }
    assert(end == segment_end(name@, from as int));
    read_number(name, from, end)
}

impl BlockConfig {
    pub fn new(families: Vec<BlockFamily>) -> (r: Self)
        ensures
            r@ == (ConfigView {
                model_prefix: None,
                families: families@.map_values(|f: BlockFamily| f@),
            }),
    {
        BlockConfig { model_prefix: None, families }
    }

    pub fn with_model_prefix(self, prefix: &str) -> (r: Self)
        ensures
            r@ == (ConfigView { model_prefix: Some(prefix@), families: self@.families }),
    {
        BlockConfig { model_prefix: Some(prefix.to_owned()), families: self.families }
    }

    /// The four common conventions. Used where nothing else is asked for.
    pub fn generic() -> (r: Self)
        ensures
            r@ == (ConfigView {
                model_prefix: None,
                families: seq![
                    "transformer_blocks"@,
                    "single_transformer_blocks"@,
                    "blocks"@,
                    "layers"@,
                ],
            }),
    {
        let r = BlockConfig::new(
            vec![
                BlockFamily::new("transformer_blocks"),
                BlockFamily::new("single_transformer_blocks"),
                BlockFamily::new("blocks"),
                BlockFamily::new("layers"),
            ],
        );
        assert(r@.families =~= seq![
            "transformer_blocks"@,
            "single_transformer_blocks"@,
            "blocks"@,
            "layers"@,
        ]);
        r
    }

    /// The conventions of FLUX: double blocks before single blocks.
    pub fn flux() -> (r: Self)
        ensures
            r@ == (ConfigView {
                model_prefix: None,
                families: seq!["transformer_blocks"@, "single_transformer_blocks"@],
            }),
    {
        let r = BlockConfig::new(
            vec![
                BlockFamily::new("transformer_blocks"),
                BlockFamily::new("single_transformer_blocks"),
            ],
        );
        assert(r@.families =~= seq!["transformer_blocks"@, "single_transformer_blocks"@]);
        r
    }

    /// The characters of a name that are matched against the families.
    fn candidate_chars(&self, name: &str) -> (r: Vec<char>)
        ensures
            r@ == candidate(self@.model_prefix, name@),
    {
        let mut chars = to_chars(name);
        match &self.model_prefix {
            Some(prefix) => {
                let lead = to_chars(prefix.as_str());
                if starts_with_label(&chars, &lead) {
                    let rest = chars.split_off(lead.len() + 1);
                    assert(rest@ =~= name@.skip(lead@.len() as int + 1));
                    return rest;
                }
                chars
            },
            None => chars,
        }
    }

    /// The position of the first family that a name matches, and its index there.
    fn match_position(&self, name: &str) -> (r: Option<(usize, u64)>)
        ensures
            match r {
                Some((at, index)) => first_match(
                    self@.families,
                    candidate(self@.model_prefix, name@),
                    0,
                ) == Some((at as int, index)),
                None => first_match(self@.families, candidate(self@.model_prefix, name@), 0)
                    is None,
            },
            r matches Some((at, _)) ==> at < self.families@.len(),
    {
        let chars = self.candidate_chars(name);
        let ghost families = self@.families;
        let mut i: usize = 0;
        while i < self.families.len()
            invariant
                i <= self.families@.len(),
                families == self@.families,
                families.len() == self.families@.len(),
                chars@ == candidate(self@.model_prefix, name@),
                first_match(families, chars@, 0) == first_match(families, chars@, i as int),
            decreases self.families@.len() - i,
        {
            assert(families[i as int] == self.families@[i as int]@);
            match index_in_family(&chars, self.families[i].label.as_str()) {
                Some(index) => {
                    return Some((i, index));
                },
                None => {},
            }
            i = i + 1;
        }
        None
    }

    /// Whether the label of a family also stands at an earlier position.
    fn repeats_label(&self, at: usize) -> (r: bool)
        requires
            at < self.families@.len(),
        ensures
            r == repeats(self@.families, at as int),
    {
        let ghost families = self@.families;
        let ghost earlier = families.take(at as int);
        let label = self.families[at].label.as_str();
        assert(families[at as int] == label@);
        let mut i: usize = 0;
        while i < at
            invariant
                i <= at < self.families@.len(),
                families == self@.families,
                families[at as int] == label@,
                earlier == families.take(at as int),
                forall|j: int| 0 <= j < i ==> #[trigger] earlier[j] != label@,
            decreases at - i,
        {
            assert(earlier[i as int] == self.families@[i as int]@);
            if same_text(self.families[i].label.as_str(), label) {
                return true;
            }
            i = i + 1;
        }
        false
    }

    /// The label and index of the block that a name belongs to.
    pub fn match_name(&self, name: &str) -> (r: Option<(&str, u64)>)
        ensures
            match r {
                Some((label, index)) => matched(self@, name@) == Some((label@, index)),
                None => matched(self@, name@) is None,
            },
    {
        match self.match_position(name) {
            Some((at, index)) => {
                assert(self@.families[at as int] == self.families@[at as int]@);
                Some((self.families[at].label.as_str(), index))
            },
            None => None,
        }
    }

    /// The id of a family's block, such as `transformer_blocks.12`.
    pub fn block_id(family: &str, index: u64) -> (r: String)
        ensures
            r@ == spec_block_id(family@, index),
    {
        let mut id = String::from_str(family);
        id.append(".");
        proof {
            reveal_strlit(".");
        }
        let number = decimal_text(index);
        id.append(number.as_str());
        assert(id@ =~= spec_block_id(family@, index));
        id
    }
}

/// One logical block: its id and its tensors, in the order in which they came.
///
/// `model_id` says which model the tensors were taken from. The functions of
/// this module know of no model and leave it zero.
#[derive(Debug)]
pub struct Block {
    pub id: String,
    pub family: String,
    pub index: Option<u64>,
    pub tensors: Vec<TensorDescriptor>,
    pub model_id: u64,
}

/// What a [`Block`] says.
#[verifier::ext_equal]
pub struct BlockView {
    pub id: Seq<char>,
    pub family: Seq<char>,
    pub index: Option<u64>,
    pub tensors: Seq<DescriptorView>,
    pub model_id: u64,
}

impl View for Block {
    type V = BlockView;

    open spec fn view(&self) -> BlockView {
        BlockView {
            id: self.id@,
            family: self.family@,
            index: self.index,
            tensors: descriptor::descriptor_views(self.tensors@),
            model_id: self.model_id,
        }
    }
}

impl Clone for Block {
    fn clone(&self) -> (r: Self)
        ensures
            r@ == self@,
    {
        let tensors = self.tensors.clone();
        assert(descriptor::descriptor_views(tensors@) =~= descriptor::descriptor_views(
            self.tensors@,
        ));
        Block {
            id: self.id.clone(),
            family: self.family.clone(),
            index: self.index,
            tensors,
            model_id: self.model_id,
        }
    }
}

/// What the blocks of a list say.
pub open spec fn block_views(blocks: Seq<Block>) -> Seq<BlockView> {
    blocks.map_values(|b: Block| b@)
}

/// The tensors that belong to a family's block, in the order given.
pub open spec fn members(
    ds: Seq<DescriptorView>,
    config: ConfigView,
    label: Seq<char>,
    index: u64,
) -> Seq<DescriptorView> {
    ds.filter(|d: DescriptorView| matched(config, d.name) == Some((label, index)))
}

/// The tensors that match no family, in the order given.
pub open spec fn unassigned(ds: Seq<DescriptorView>, config: ConfigView) -> Seq<DescriptorView> {
    ds.filter(|d: DescriptorView| matched(config, d.name) is None)
}

/// A family's block.
pub open spec fn family_block(
    ds: Seq<DescriptorView>,
    config: ConfigView,
    label: Seq<char>,
    index: u64,
) -> BlockView {
    BlockView {
        id: spec_block_id(label, index),
        family: label,
        index: Some(index),
        tensors: members(ds, config, label, index),
        model_id: 0,
    }
}

/// The block of the tensors that match no family.
pub open spec fn unassigned_block(ds: Seq<DescriptorView>, config: ConfigView) -> BlockView {
    BlockView {
        id: UNASSIGNED@,
        family: UNASSIGNED@,
        index: None,
        tensors: unassigned(ds, config),
        model_id: 0,
    }
}

pub open spec fn strictly_increasing(s: Seq<u64>) -> bool {
    forall|i: int, j: int| 0 <= i < j < s.len() ==> s[i] < s[j]
}

/// `s` holds the indices of a family's blocks, each once and in numeric order.
pub open spec fn lists_indices(
    s: Seq<u64>,
    ds: Seq<DescriptorView>,
    config: ConfigView,
    label: Seq<char>,
) -> bool {
    &&& strictly_increasing(s)
    &&& forall|i: u64| #[trigger] s.contains(i) <==> members(ds, config, label, i).len() > 0
}

/// The indices of a family's blocks in numeric order.
pub open spec fn family_indices(
    ds: Seq<DescriptorView>,
    config: ConfigView,
    label: Seq<char>,
) -> Seq<u64> {
    choose|s: Seq<u64>| lists_indices(s, ds, config, label)
}

/// The blocks of one family, indices ascending.
pub open spec fn family_blocks(
    ds: Seq<DescriptorView>,
    config: ConfigView,
    label: Seq<char>,
) -> Seq<BlockView> {
    family_indices(ds, config, label).map_values(
        |index: u64| family_block(ds, config, label, index),
    )
}

/// The label of the family at position `at` also stands at an earlier position.
pub open spec fn repeats(families: Seq<Seq<char>>, at: int) -> bool {
    families.take(at).contains(families[at])
}

/// The blocks of the first `n` families, in the order of the families. Those of a
/// label that was configured several times stand where it comes first.
pub open spec fn leading_blocks(ds: Seq<DescriptorView>, config: ConfigView, n: int) -> Seq<
    BlockView,
>
    decreases n,
{
    if n <= 0 {
        Seq::empty()
    } else if repeats(config.families, n - 1) {
        leading_blocks(ds, config, n - 1)
    } else {
        leading_blocks(ds, config, n - 1) + family_blocks(ds, config, config.families[n - 1])
    }
}

/// All blocks: those of the families as configured, and last what matched none,
/// if anything did not.
pub open spec fn grouped(ds: Seq<DescriptorView>, config: ConfigView) -> Seq<BlockView> {
    let assigned = leading_blocks(ds, config, config.families.len() as int);
    if unassigned(ds, config).len() > 0 {
        assigned.push(unassigned_block(ds, config))
    } else {
        assigned
    }
}

proof fn lemma_increasing_unique(a: Seq<u64>, b: Seq<u64>)
    requires
        strictly_increasing(a),
        strictly_increasing(b),
        forall|i: u64| #[trigger] a.contains(i) <==> b.contains(i),
    ensures
        a == b,
    decreases a.len(),
{
    if a.len() == 0 {
        if b.len() > 0 {
            assert(a.contains(b[0]) <==> b.contains(b[0]));
        }
        assert(a =~= b);
    } else {
        assert(a.contains(a.last()));
        let j = choose|j: int| 0 <= j < b.len() && b[j] == a.last();
        assert(a.contains(b.last()) <==> b.contains(b.last()));
        let i = choose|i: int| 0 <= i < a.len() && a[i] == b.last();
        assert(a.last() == b.last());
        let x = a.drop_last();
        let y = b.drop_last();
        assert forall|k: u64| #[trigger] x.contains(k) <==> y.contains(k) by {
            assert(a.contains(k) <==> b.contains(k));
            if x.contains(k) {
                let m = choose|m: int| 0 <= m < x.len() && x[m] == k;
                assert(a[m] == k);
                let n = choose|n: int| 0 <= n < b.len() && b[n] == k;
                assert(y[n] == k);
            }
            if y.contains(k) {
                let m = choose|m: int| 0 <= m < y.len() && y[m] == k;
                assert(b[m] == k);
                let n = choose|n: int| 0 <= n < a.len() && a[n] == k;
                assert(x[n] == k);
            }
        }
        lemma_increasing_unique(x, y);
        assert(a =~= x.push(a.last()));
        assert(b =~= y.push(b.last()));
    }
}

proof fn lemma_family_indices(
    s: Seq<u64>,
    ds: Seq<DescriptorView>,
    config: ConfigView,
    label: Seq<char>,
)
    requires
        lists_indices(s, ds, config, label),
    ensures
        family_indices(ds, config, label) == s,
{
    let t = family_indices(ds, config, label);
    assert(lists_indices(t, ds, config, label));
    assert forall|i: u64| #[trigger] s.contains(i) <==> t.contains(i) by {
        assert(s.contains(i) <==> members(ds, config, label, i).len() > 0);
        assert(t.contains(i) <==> members(ds, config, label, i).len() > 0);
    }
    lemma_increasing_unique(s, t);
}

proof fn lemma_members_push(
    ds: Seq<DescriptorView>,
    d: DescriptorView,
    config: ConfigView,
    label: Seq<char>,
    index: u64,
)
    ensures
        members(ds.push(d), config, label, index) == if matched(config, d.name) == Some(
            (label, index),
        ) {
            members(ds, config, label, index).push(d)
        } else {
            members(ds, config, label, index)
        },
{
    ds.lemma_filter_push(d, |d: DescriptorView| matched(config, d.name) == Some((label, index)));
}

proof fn lemma_unassigned_push(ds: Seq<DescriptorView>, d: DescriptorView, config: ConfigView)
    ensures
        unassigned(ds.push(d), config) == if matched(config, d.name) is None {
            unassigned(ds, config).push(d)
        } else {
            unassigned(ds, config)
        },
{
    ds.lemma_filter_push(d, |d: DescriptorView| matched(config, d.name) is None);
}

/// The blocks of the family at position `at`, given where each tensor matched.
fn group_family(
    descriptors: &[TensorDescriptor],
    config: &BlockConfig,
    positions: &Vec<Option<(usize, u64)>>,
    at: usize,
) -> (r: Vec<Block>)
    requires
        at < config.families@.len(),
        positions@.len() == descriptors@.len(),
        forall|k: int|
            0 <= k < positions@.len() ==> match #[trigger] positions@[k] {
                Some((p, index)) => p < config.families@.len() && matched(
                    config@,
                    descriptors@[k].name@,
                ) == Some((config@.families[p as int], index)),
                None => matched(config@, descriptors@[k].name@) is None,
            },
    ensures
        block_views(r@) == family_blocks(
            descriptor::descriptor_views(descriptors@),
            config@,
            config@.families[at as int],
        ),
        lists_indices(
            family_indices(
                descriptor::descriptor_views(descriptors@),
                config@,
                config@.families[at as int],
            ),
            descriptor::descriptor_views(descriptors@),
            config@,
            config@.families[at as int],
        ),
{
    let label = config.families[at].label.as_str();
    let ghost all = descriptor::descriptor_views(descriptors@);
    let ghost c = config@;
    assert(label@ == c.families[at as int]);
    let mut numbers: Vec<u64> = Vec::new();
    let mut blocks: Vec<Block> = Vec::new();
    let mut i: usize = 0;
    proof {
        assert(all.take(0) =~= Seq::<DescriptorView>::empty());
        reveal(Seq::filter);
    }
    while i < descriptors.len()
        invariant
            i <= descriptors@.len(),
            all == descriptor::descriptor_views(descriptors@),
            c == config@,
            at < config.families@.len(),
            label@ == c.families[at as int],
            positions@.len() == descriptors@.len(),
            forall|k: int|
                0 <= k < positions@.len() ==> match #[trigger] positions@[k] {
                    Some((p, index)) => p < config.families@.len() && matched(
                        c,
                        descriptors@[k].name@,
                    ) == Some((c.families[p as int], index)),
                    None => matched(c, descriptors@[k].name@) is None,
                },
            numbers@.len() == blocks@.len(),
            lists_indices(numbers@, all.take(i as int), c, label@),
            forall|j: int|
                0 <= j < blocks@.len() ==> (#[trigger] blocks@[j])@ == family_block(
                    all.take(i as int),
                    c,
                    label@,
                    numbers@[j],
                ),
        decreases descriptors@.len() - i,
    {
        let ghost sofar = all.take(i as int);
        let ghost d = all[i as int];
        assert(all.take(i + 1) =~= sofar.push(d));
        assert(d == descriptors@[i as int]@);
        assert forall|index: u64|
            #[trigger] members(all.take(i + 1), c, label@, index) == (if matched(c, d.name) == Some(
                (label@, index),
            ) {
                members(sofar, c, label@, index).push(d)
            } else {
                members(sofar, c, label@, index)
            }) by {
            lemma_members_push(sofar, d, c, label@, index);
        }
        let mut mine: Option<u64> = None;
        match positions[i] {
            Some((p, index)) => {
                assert(c.families[p as int] == config.families@[p as int]@);
                if p == at || same_text(config.families[p].label.as_str(), label) {
                    mine = Some(index);
                }
            },
            None => {},
        }
        assert(forall|index: u64|
            matched(c, d.name) == Some((label@, index)) <==> mine == Some(index));
        match mine {
            Some(index) => {
                let mut to: usize = numbers.len();
                while to > 0 && numbers[to - 1] > index
                    invariant
                        to <= numbers@.len(),
                        forall|j: int| to <= j < numbers@.len() ==> numbers@[j] > index,
                    decreases to,
                {
                    to = to - 1;
                }
                let ghost before = numbers@;
                let ghost old_blocks = blocks@;
                if to > 0 && numbers[to - 1] == index {
                    let copy = descriptors[i].clone();
                    let ghost had = blocks@[to - 1]@;
                    let block = &mut blocks[to - 1];
                    block.tensors.push(copy);
                    proof {
                        assert(blocks@.len() == old_blocks.len());
                        assert(descriptor::descriptor_views(blocks@[to - 1].tensors@)
                            =~= had.tensors.push(d));
                        assert(before.contains(index)) by {
                            assert(before[to - 1] == index);
                        }
                        assert forall|j: int| 0 <= j < blocks@.len() implies (
                        #[trigger] blocks@[j])@ == family_block(
                            all.take(i + 1),
                            c,
                            label@,
                            numbers@[j],
                        ) by {
                            assert(old_blocks[j]@ == family_block(sofar, c, label@, before[j]));
                            if j == to - 1 {
                                assert(blocks@[j]@ =~= family_block(
                                    all.take(i + 1),
                                    c,
                                    label@,
                                    index,
                                ));
                            } else {
                                assert(before[j] != index);
                                assert(blocks@[j] == old_blocks[j]);
                            }
                        }
                    }
                } else {
                    let block = Block {
                        id: BlockConfig::block_id(label, index),
                        family: label.to_owned(),
                        index: Some(index),
                        tensors: vec![descriptors[i].clone()],
                        model_id: 0,
                    };
                    numbers.insert(to, index);
                    blocks.insert(to, block);
                    proof {
                        assert(!before.contains(index)) by {
                            if before.contains(index) {
                                let j = choose|j: int|
                                    0 <= j < before.len() && before[j] == index;
                                assert(to > 0 && j < to - 1 && before[j] < before[to - 1]);
                            }
                        }
                        assert(members(sofar, c, label@, index).len() == 0);
                        assert(members(sofar, c, label@, index) =~= Seq::empty());
                        assert(descriptor::descriptor_views(block.tensors@) =~= seq![d]);
                        assert(block@ =~= family_block(all.take(i + 1), c, label@, index));
                        assert forall|j: int| 0 <= j < blocks@.len() implies (
                        #[trigger] blocks@[j])@ == family_block(
                            all.take(i + 1),
                            c,
                            label@,
                            numbers@[j],
                        ) by {
                            if j < to {
                                assert(old_blocks[j]@ == family_block(
                                    sofar,
                                    c,
                                    label@,
                                    before[j],
                                ));
                                assert(before.contains(before[j]));
                            } else if j > to {
                                assert(old_blocks[j - 1]@ == family_block(
                                    sofar,
                                    c,
                                    label@,
                                    before[j - 1],
                                ));
                                assert(before.contains(before[j - 1]));
                            }
                        }
                    }
                }
                proof {
                    assert forall|x: u64| #[trigger] numbers@.contains(x) <==> members(
                        all.take(i + 1),
                        c,
                        label@,
                        x,
                    ).len() > 0 by {
                        assert(before.contains(x) <==> members(sofar, c, label@, x).len() > 0);
                        if numbers@ != before {
                            assert(numbers@[to as int] == index);
                            if before.contains(x) {
                                let j = choose|j: int| 0 <= j < before.len() && before[j] == x;
                                if j < to {
                                    assert(numbers@[j] == x);
                                } else {
                                    assert(numbers@[j + 1] == x);
                                }
                            }
                            if numbers@.contains(x) {
                                let j = choose|j: int| 0 <= j < numbers@.len() && numbers@[j] == x;
                                if j < to {
                                    assert(before[j] == x);
                                } else if j > to {
                                    assert(before[j - 1] == x);
                                }
                            }
                        }
                    }
                }
            },
            None => {
                assert forall|j: int| 0 <= j < blocks@.len() implies (#[trigger] blocks@[j])@
                    == family_block(all.take(i + 1), c, label@, numbers@[j]) by {
                    assert(blocks@[j]@ == family_block(sofar, c, label@, numbers@[j]));
                }
                assert forall|x: u64| #[trigger] numbers@.contains(x) <==> members(
                    all.take(i + 1),
                    c,
                    label@,
                    x,
                ).len() > 0 by {
                    assert(numbers@.contains(x) <==> members(sofar, c, label@, x).len() > 0);
                }
            },
        }
        i = i + 1;
    }
    proof {
        assert(all.take(i as int) =~= all);
        lemma_family_indices(numbers@, all, c, label@);
        assert(block_views(blocks@) =~= family_blocks(all, c, label@));
    }
    blocks
}

/// The tensors that match no family.
fn collect_unassigned(descriptors: &[TensorDescriptor], config: &BlockConfig) -> (r: Vec<
    TensorDescriptor,
>)
    ensures
        descriptor::descriptor_views(r@) == unassigned(
            descriptor::descriptor_views(descriptors@),
            config@,
        ),
{
    let ghost all = descriptor::descriptor_views(descriptors@);
    let mut out: Vec<TensorDescriptor> = Vec::new();
    let mut i: usize = 0;
    proof {
        assert(all.take(0) =~= Seq::<DescriptorView>::empty());
        reveal(Seq::filter);
        assert(descriptor::descriptor_views(out@) =~= unassigned(all.take(0), config@));
    }
    while i < descriptors.len()
        invariant
            i <= descriptors@.len(),
            all == descriptor::descriptor_views(descriptors@),
            descriptor::descriptor_views(out@) == unassigned(all.take(i as int), config@),
        decreases descriptors@.len() - i,
    {
        proof {
            assert(all.take(i + 1) =~= all.take(i as int).push(all[i as int]));
            lemma_unassigned_push(all.take(i as int), all[i as int], config@);
        }
        if config.match_name(descriptors[i].name.as_str()).is_none() {
            let ghost before = descriptor::descriptor_views(out@);
            out.push(descriptors[i].clone());
            assert(descriptor::descriptor_views(out@) =~= before.push(all[i as int]));
        }
        i = i + 1;
    }
    assert(all.take(i as int) =~= all);
    out
}

/// The tensors that belong to a family's block.
fn collect_members(
    descriptors: &[TensorDescriptor],
    config: &BlockConfig,
    label: &str,
    index: u64,
) -> (r: Vec<TensorDescriptor>)
    ensures
        descriptor::descriptor_views(r@) == members(
            descriptor::descriptor_views(descriptors@),
            config@,
            label@,
            index,
        ),
{
    let ghost all = descriptor::descriptor_views(descriptors@);
    let mut out: Vec<TensorDescriptor> = Vec::new();
    let mut i: usize = 0;
    proof {
        assert(all.take(0) =~= Seq::<DescriptorView>::empty());
        reveal(Seq::filter);
        assert(descriptor::descriptor_views(out@) =~= members(
            all.take(0),
            config@,
            label@,
            index,
        ));
    }
    while i < descriptors.len()
        invariant
            i <= descriptors@.len(),
            all == descriptor::descriptor_views(descriptors@),
            descriptor::descriptor_views(out@) == members(
                all.take(i as int),
                config@,
                label@,
                index,
            ),
        decreases descriptors@.len() - i,
    {
        proof {
            assert(all.take(i + 1) =~= all.take(i as int).push(all[i as int]));
            lemma_members_push(all.take(i as int), all[i as int], config@, label@, index);
        }
        let belongs = match config.match_name(descriptors[i].name.as_str()) {
            Some((family, found)) => found == index && same_text(family, label),
            None => false,
        };
        if belongs {
            let ghost before = descriptor::descriptor_views(out@);
            out.push(descriptors[i].clone());
            assert(descriptor::descriptor_views(out@) =~= before.push(all[i as int]));
        }
        i = i + 1;
    }
    assert(all.take(i as int) =~= all);
    out
}

/// Groups tensors into blocks: families in configured order, indices in numeric
/// order within a family, and `shared/unassigned` last. A label that is configured
/// several times counts where it comes first. A block may span shards and byte
/// ranges; nothing is assumed of the layout.
pub fn group_blocks(descriptors: &[TensorDescriptor], config: &BlockConfig) -> (r: Vec<Block>)
    ensures
        block_views(r@) == grouped(descriptor::descriptor_views(descriptors@), config@),
{
    let ghost all = descriptor::descriptor_views(descriptors@);
    let mut positions: Vec<Option<(usize, u64)>> = Vec::new();
    let mut i: usize = 0;
    while i < descriptors.len()
        invariant
            i <= descriptors@.len(),
            positions@.len() == i,
            forall|k: int|
                0 <= k < i ==> match #[trigger] positions@[k] {
                    Some((p, index)) => p < config.families@.len() && matched(
                        config@,
                        descriptors@[k].name@,
                    ) == Some((config@.families[p as int], index)),
                    None => matched(config@, descriptors@[k].name@) is None,
                },
        decreases descriptors@.len() - i,
    {
        positions.push(config.match_position(descriptors[i].name.as_str()));
        i = i + 1;
    }

    let mut out: Vec<Block> = Vec::new();
    let mut at: usize = 0;
    assert(block_views(out@) =~= leading_blocks(all, config@, 0));
    while at < config.families.len()
        invariant
            at <= config.families@.len(),
            all == descriptor::descriptor_views(descriptors@),
            positions@.len() == descriptors@.len(),
            forall|k: int|
                0 <= k < positions@.len() ==> match #[trigger] positions@[k] {
                    Some((p, index)) => p < config.families@.len() && matched(
                        config@,
                        descriptors@[k].name@,
                    ) == Some((config@.families[p as int], index)),
                    None => matched(config@, descriptors@[k].name@) is None,
                },
            block_views(out@) == leading_blocks(all, config@, at as int),
        decreases config.families@.len() - at,
    {
        if !config.repeats_label(at) {
            let mut blocks = group_family(descriptors, config, &positions, at);
            let ghost before = block_views(out@);
            let ghost more = block_views(blocks@);
            out.append(&mut blocks);
            assert(block_views(out@) =~= before + more);
        }
        at = at + 1;
    }

    let tensors = collect_unassigned(descriptors, config);
    if tensors.len() > 0 {
        let ghost before = block_views(out@);
        let block = Block {
            id: UNASSIGNED.to_owned(),
            family: UNASSIGNED.to_owned(),
            index: None,
            tensors,
            model_id: 0,
        };
        out.push(block);
        assert(block@ =~= unassigned_block(all, config@));
        assert(block_views(out@) =~= before.push(block@));
    }
    out
}

/// `b` is a block of one of the first `n` families, and has tensors.
pub open spec fn is_family_block(
    ds: Seq<DescriptorView>,
    config: ConfigView,
    n: int,
    b: BlockView,
) -> bool {
    exists|f: int, index: u64|
        0 <= f < n && b == #[trigger] family_block(ds, config, config.families[f], index)
            && members(ds, config, config.families[f], index).len() > 0
}

/// What a family's block has to do with the list of all blocks.
proof fn lemma_leading_blocks(ds: Seq<DescriptorView>, config: ConfigView, n: int)
    requires
        0 <= n <= config.families.len(),
        forall|f: int|
            0 <= f < config.families.len() ==> lists_indices(
                family_indices(ds, config, config.families[f]),
                ds,
                config,
                #[trigger] config.families[f],
            ),
    ensures
        forall|f: int, index: u64|
            0 <= f < n && members(ds, config, config.families[f], index).len() > 0
                ==> leading_blocks(ds, config, n).contains(
                #[trigger] family_block(ds, config, config.families[f], index),
            ),
        forall|j: int|
            0 <= j < leading_blocks(ds, config, n).len() ==> is_family_block(
                ds,
                config,
                n,
                #[trigger] leading_blocks(ds, config, n)[j],
            ),
    decreases n,
{
    if n > 0 {
        lemma_leading_blocks(ds, config, n - 1);
        let before = leading_blocks(ds, config, n - 1);
        let label = config.families[n - 1];
        let indices = family_indices(ds, config, label);
        let own = family_blocks(ds, config, label);
        let all = leading_blocks(ds, config, n);
        assert(lists_indices(indices, ds, config, label));
        assert forall|f: int, index: u64|
            0 <= f < n && members(ds, config, config.families[f], index).len()
                > 0 implies all.contains(
            #[trigger] family_block(ds, config, config.families[f], index),
        ) by {
            let b = family_block(ds, config, config.families[f], index);
            if f < n - 1 || repeats(config.families, n - 1) {
                let earlier = config.families.take(n - 1);
                let g = if f < n - 1 {
                    f
                } else {
                    choose|g: int| 0 <= g < earlier.len() && earlier[g] == label
                };
                assert(b == family_block(ds, config, config.families[g], index));
                assert(before.contains(b));
                let j = choose|j: int| 0 <= j < before.len() && before[j] == b;
                assert(all[j] == b);
            } else {
                assert(indices.contains(index));
                let j = choose|j: int| 0 <= j < indices.len() && indices[j] == index;
                assert(own[j] == b);
                assert(all[before.len() + j] == b);
            }
        }
        assert forall|j: int| 0 <= j < all.len() implies is_family_block(
            ds,
            config,
            n,
            #[trigger] all[j],
        ) by {
            if j < before.len() {
                assert(is_family_block(ds, config, n - 1, before[j]));
            } else {
                let index = indices[j - before.len()];
                assert(indices.contains(index));
                assert(all[j] == own[j - before.len()]);
                assert(all[j] == family_block(ds, config, config.families[n - 1], index));
            }
        }
    }
}

/// The indices of a family can be listed in order, whatever the tensors are.
pub proof fn lemma_indices_exist(ds: Seq<DescriptorView>, config: ConfigView, label: Seq<char>)
    ensures
        lists_indices(family_indices(ds, config, label), ds, config, label),
    decreases ds.len(),
{
    if ds.len() == 0 {
        reveal(Seq::filter);
        assert(lists_indices(Seq::<u64>::empty(), ds, config, label));
    } else {
        let rest = ds.drop_last();
        let d = ds.last();
        lemma_indices_exist(rest, config, label);
        let s = family_indices(rest, config, label);
        assert(ds =~= rest.push(d));
        assert forall|index: u64|
            #[trigger] members(ds, config, label, index) == (if matched(config, d.name) == Some(
                (label, index),
            ) {
                members(rest, config, label, index).push(d)
            } else {
                members(rest, config, label, index)
            }) by {
            lemma_members_push(rest, d, config, label, index);
        }
        match matched(config, d.name) {
            Some((l, x)) if l == label && !s.contains(x) => {
                let at = lemma_place(s, x, s.len() as int);
                let t = s.insert(at, x);
                assert forall|i: u64| #[trigger] t.contains(i) <==> members(
                    ds,
                    config,
                    label,
                    i,
                ).len() > 0 by {
                    assert(s.contains(i) <==> members(rest, config, label, i).len() > 0);
                    assert(t[at] == x);
                    if s.contains(i) {
                        let j = choose|j: int| 0 <= j < s.len() && s[j] == i;
                        if j < at {
                            assert(t[j] == i);
                        } else {
                            assert(t[j + 1] == i);
                        }
                    }
                    if t.contains(i) {
                        let j = choose|j: int| 0 <= j < t.len() && t[j] == i;
                        if j < at {
                            assert(s[j] == i);
                        } else if j > at {
                            assert(s[j - 1] == i);
                        }
                    }
                }
                assert(lists_indices(t, ds, config, label));
            },
            _ => {
                assert forall|i: u64| #[trigger] s.contains(i) <==> members(
                    ds,
                    config,
                    label,
                    i,
                ).len() > 0 by {
                    assert(s.contains(i) <==> members(rest, config, label, i).len() > 0);
                }
                assert(lists_indices(s, ds, config, label));
            },
        }
    }
}

/// Where a new number goes in an increasing sequence.
proof fn lemma_place(s: Seq<u64>, x: u64, from: int) -> (at: int)
    requires
        strictly_increasing(s),
        !s.contains(x),
        0 <= from <= s.len(),
        forall|j: int| from <= j < s.len() ==> s[j] > x,
    ensures
        0 <= at <= s.len(),
        strictly_increasing(s.insert(at, x)),
    decreases from,
{
    if from > 0 && s[from - 1] > x {
        lemma_place(s, x, from - 1)
    } else {
        if from > 0 {
            assert(s.contains(s[from - 1]));
        }
        from
    }
}

/// What the list of all blocks holds: a block for each index that has tensors,
/// the block of unassigned tensors if there are any, and nothing else.
pub proof fn lemma_grouped_contents(ds: Seq<DescriptorView>, config: ConfigView)
    ensures
        forall|f: int, index: u64|
            0 <= f < config.families.len() && members(ds, config, config.families[f], index).len()
                > 0 ==> grouped(ds, config).contains(
                #[trigger] family_block(ds, config, config.families[f], index),
            ),
        unassigned(ds, config).len() > 0 ==> grouped(ds, config).contains(
            unassigned_block(ds, config),
        ),
        forall|b: BlockView| #[trigger]
            grouped(ds, config).contains(b) ==> {
                ||| b == unassigned_block(ds, config) && unassigned(ds, config).len() > 0
                ||| is_family_block(ds, config, config.families.len() as int, b)
            },
{
    let n = config.families.len() as int;
    assert forall|f: int| 0 <= f < n implies lists_indices(
        family_indices(ds, config, config.families[f]),
        ds,
        config,
        #[trigger] config.families[f],
    ) by {
        lemma_indices_exist(ds, config, config.families[f]);
    }
    lemma_leading_blocks(ds, config, n);
    let leading = leading_blocks(ds, config, n);
    let all = grouped(ds, config);
    assert forall|f: int, index: u64|
        0 <= f < n && members(ds, config, config.families[f], index).len()
            > 0 implies all.contains(
        #[trigger] family_block(ds, config, config.families[f], index),
    ) by {
        let b = family_block(ds, config, config.families[f], index);
        assert(leading.contains(b));
        let j = choose|j: int| 0 <= j < leading.len() && leading[j] == b;
        assert(all[j] == b);
    }
    if unassigned(ds, config).len() > 0 {
        assert(all[leading.len() as int] == unassigned_block(ds, config));
    }
    assert forall|b: BlockView| #[trigger] all.contains(b) implies {
        ||| b == unassigned_block(ds, config) && unassigned(ds, config).len() > 0
        ||| is_family_block(ds, config, n, b)
    } by {
        let j = choose|j: int| 0 <= j < all.len() && all[j] == b;
        if j < leading.len() {
            assert(leading[j] == b);
        }
    }
}

/// An id names one family and one index: `transformer_blocks.1` is never
/// `transformer_blocks.10`.
pub proof fn lemma_block_id_injective(a: Seq<char>, i: u64, b: Seq<char>, j: u64)
    requires
        spec_block_id(a, i) == spec_block_id(b, j),
    ensures
        a == b,
        i == j,
{
    text::lemma_decimal(i as int);
    text::lemma_decimal(j as int);
    let di = text::decimal(i as int);
    let dj = text::decimal(j as int);
    let id = spec_block_id(a, i);
    assert(id == spec_block_id(b, j));
    assert(id.len() == a.len() + 1 + di.len() && id.len() == b.len() + 1 + dj.len());
    assert(id[a.len() as int] == '.' && id[b.len() as int] == '.');
    if a.len() < b.len() {
        assert(id[b.len() as int] == di[b.len() - a.len() - 1]);
        assert(text::is_digit(di[b.len() - a.len() - 1]));
    } else if b.len() < a.len() {
        assert(id[a.len() as int] == dj[a.len() - b.len() - 1]);
        assert(text::is_digit(dj[a.len() - b.len() - 1]));
    } else {
        assert(a =~= id.take(a.len() as int));
        assert(b =~= id.take(b.len() as int));
        assert(di =~= id.skip(a.len() as int + 1));
        assert(dj =~= id.skip(b.len() as int + 1));
    }
}

/// No family's block has the id of the unassigned tensors.
pub proof fn lemma_unassigned_id_reserved(label: Seq<char>, index: u64)
    ensures
        spec_block_id(label, index) != UNASSIGNED@,
{
    reveal_strlit("shared/unassigned");
    let id = spec_block_id(label, index);
    assert(label.len() < id.len() && id[label.len() as int] == '.');
    assert(UNASSIGNED@ =~= seq![
        's', 'h', 'a', 'r', 'e', 'd', '/', 'u', 'n', 'a', 's', 's', 'i', 'g', 'n', 'e', 'd',
    ]);
}

/// Finds one block by its exact id, `shared/unassigned` among them. Only the
/// tensors of that block are collected.
pub fn find_block(
    descriptors: &[TensorDescriptor],
    config: &BlockConfig,
    block_id: &str,
) -> (r: Option<Block>)
    ensures
        match r {
            Some(b) => b@.id == block_id@ && grouped(
                descriptor::descriptor_views(descriptors@),
                config@,
            ).contains(b@),
            None => forall|b: BlockView| #[trigger]
                grouped(descriptor::descriptor_views(descriptors@), config@).contains(b) ==> b.id
                    != block_id@,
        },
{
    let ghost all = descriptor::descriptor_views(descriptors@);
    proof {
        lemma_grouped_contents(all, config@);
        assert forall|l: Seq<char>, x: u64| #[trigger] spec_block_id(l, x) != UNASSIGNED@ by {
            lemma_unassigned_id_reserved(l, x);
        }
    }
    if same_text(block_id, UNASSIGNED) {
        let tensors = collect_unassigned(descriptors, config);
        if tensors.len() == 0 {
            assert forall|b: BlockView| #[trigger] grouped(all, config@).contains(b) implies b.id
                != block_id@ by {
                if b.id == block_id@ {
                    let (f, x) = choose|f: int, x: u64|
                        0 <= f < config@.families.len() && b == #[trigger] family_block(
                            all,
                            config@,
                            config@.families[f],
                            x,
                        );
                    assert(b.id == spec_block_id(config@.families[f], x));
                }
            }
            return None;
        }
        let block = Block {
            id: UNASSIGNED.to_owned(),
            family: UNASSIGNED.to_owned(),
            index: None,
            tensors,
            model_id: 0,
        };
        assert(block@ =~= unassigned_block(all, config@));
        return Some(block);
    }
    let wanted = to_chars(block_id);
    let mut f: usize = 0;
    while f < config.families.len()
        invariant
            f <= config.families@.len(),
            all == descriptor::descriptor_views(descriptors@),
            wanted@ == block_id@,
            forall|g: int, x: u64|
                0 <= g < config@.families.len() && members(
                    all,
                    config@,
                    config@.families[g],
                    x,
                ).len() > 0 ==> grouped(all, config@).contains(
                    #[trigger] family_block(all, config@, config@.families[g], x),
                ),
            forall|g: int, x: u64|
                0 <= g < f && members(all, config@, config@.families[g], x).len() > 0
                    ==> #[trigger] spec_block_id(config@.families[g], x) != block_id@,
        decreases config.families@.len() - f,
    {
        let label = config.families[f].label.as_str();
        assert(label@ == config@.families[f as int]);
        let lead = to_chars(label);
        proof {
            assert forall|x: u64| #[trigger] spec_block_id(label@, x) == block_id@ implies {
                let rest = block_id@.subrange(label@.len() as int + 1, block_id@.len() as int);
                &&& label@.push('.').is_prefix_of(block_id@)
                &&& rest.len() > 0 && text::all_digits(rest) && text::digits_value(rest) == x
            } by {
                text::lemma_decimal(x as int);
                let rest = block_id@.subrange(label@.len() as int + 1, block_id@.len() as int);
                assert(rest =~= text::decimal(x as int));
                assert(block_id@.subrange(0, label@.len() as int + 1) =~= label@.push('.'));
            }
        }
        if starts_with_label(&wanted, &lead) {
            match read_number(&wanted, lead.len() + 1, wanted.len()) {
                Some(index) => {
                    let canonical = BlockConfig::block_id(label, index);
                    if same_text(canonical.as_str(), block_id) {
                        let tensors = collect_members(descriptors, config, label, index);
                        if tensors.len() > 0 {
                            let block = Block {
                                id: block_id.to_owned(),
                                family: label.to_owned(),
                                index: Some(index),
                                tensors,
                                model_id: 0,
                            };
                            assert(block@ =~= family_block(
                                all,
                                config@,
                                config@.families[f as int],
                                index,
                            ));
                            return Some(block);
                        }
                    }
                },
                None => {},
            }
        }
        f = f + 1;
    }
    proof {
        assert forall|b: BlockView| #[trigger] grouped(all, config@).contains(b) implies b.id
            != block_id@ by {
            if b != unassigned_block(all, config@) {
                let (g, x) = choose|g: int, x: u64|
                    0 <= g < config@.families.len() && b == #[trigger] family_block(
                        all,
                        config@,
                        config@.families[g],
                        x,
                    ) && members(all, config@, config@.families[g], x).len() > 0;
                assert(b.id == spec_block_id(config@.families[g], x));
            }
        }
    }
    None
}

/// Blocks are seen one by one, each field under its own name.
pub proof fn lemma_blocks_seen(blocks: Seq<Block>, i: int)
    requires
        0 <= i < blocks.len(),
    ensures
        block_views(blocks).len() == blocks.len(),
        block_views(blocks)[i].id == blocks[i].id@,
        block_views(blocks)[i].family == blocks[i].family@,
        block_views(blocks)[i].index == blocks[i].index,
        block_views(blocks)[i].model_id == blocks[i].model_id,
        block_views(blocks)[i].tensors == descriptor::descriptor_views(blocks[i].tensors@),
{
}

/// The families of a configuration are seen by their labels, in their order, and the
/// prefix as it is.
pub proof fn lemma_config_seen(config: BlockConfig, i: int)
    requires
        0 <= i < config.families@.len(),
    ensures
        config@.families.len() == config.families@.len(),
        config@.families[i] == config.families@[i].label@,
        config@.model_prefix is Some <==> config.model_prefix is Some,
        config.model_prefix matches Some(p) ==> config@.model_prefix == Some(p@),
{
}

} // verus!
