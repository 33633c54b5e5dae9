//! The batch orchestrator's verified core: resolving a page's links into
//! laws, planning the idempotent writes for each law's paragraphs and
//! embeddings under collision-free keys, signalling backpressure when a page
//! yields no links, and partitioning a page range across a fixed worker
//! pool. The surrounding program performs the writes, the sleeps and the
//! threads.
use vstd::prelude::*;
use vstd::string::StringExecFns;

use crate::embed::embed;
use crate::embed::usable_serialized;
use crate::embed::EmbedProvider;
use crate::fetch::extract_tag;
use crate::fetch::main_page_links;
use crate::fetch::write_paragraphs;
use crate::fetch::CrawlConfig;
use crate::fetch::Fetcher;
use crate::lawid::law_id_of;
use crate::lawid::law_id_wellformed;
use crate::lawid::lemma_law_id_wellformed;
use crate::lawid::resolve_law_id;
use crate::segment::paragraph_number;
use crate::segment::string_views;
use crate::text::chars_string;
use crate::text::dec_chars_u64;
use crate::text::dec_digits;
use crate::text::lemma_dec_digits_are_digits;
use crate::text::lemma_dec_digits_injective;

verus! {

/// One store write: `content` is to be put under `key`, overwriting.
pub struct WriteOp {
    pub key: String,
    pub content: String,
}

/// The key under which a paragraph's text is persisted.
pub open spec fn text_key_spec(id: Seq<char>, index: nat) -> Seq<char> {
    "paragraphs/"@ + id + seq!['-'] + dec_digits(index)
}

/// The key under which a paragraph's embedding is persisted: the same
/// coordinate, a distinct namespace.
pub open spec fn embed_key_spec(id: Seq<char>, index: nat) -> Seq<char> {
    "embeddings/"@ + id + seq!['-'] + dec_digits(index)
}

/// Builds the text key of paragraph `index` of law `law_id`.
pub fn text_key(law_id: &str, index: u64) -> (r: String)
    ensures
        r@ == text_key_spec(law_id@, index as nat),
{
    let digits = chars_string(&dec_chars_u64(index));
    let mut k = String::from_str("paragraphs/");
    k.append(law_id);
    k.append("-");
    k.append(digits.as_str());
    proof {
        reveal_strlit("-");
        assert("-"@ =~= seq!['-']);
        assert(k@ =~= text_key_spec(law_id@, index as nat));
    }
    k
}

/// Builds the embedding key of paragraph `index` of law `law_id`.
pub fn embed_key(law_id: &str, index: u64) -> (r: String)
    ensures
        r@ == embed_key_spec(law_id@, index as nat),
{
    let digits = chars_string(&dec_chars_u64(index));
    let mut k = String::from_str("embeddings/");
    k.append(law_id);
    k.append("-");
    k.append(digits.as_str());
    proof {
        reveal_strlit("-");
        assert("-"@ =~= seq!['-']);
        assert(k@ =~= embed_key_spec(law_id@, index as nat));
    }
    k
}

/// If two texts agree and both split as `a + '-' + b` with dash-free `a`,
/// the split is unique.
proof fn lemma_dash_split(a1: Seq<char>, b1: Seq<char>, a2: Seq<char>, b2: Seq<char>)
    requires
        a1 + seq!['-'] + b1 == a2 + seq!['-'] + b2,
        forall|j: int| 0 <= j < a1.len() ==> #[trigger] a1[j] != '-',
        forall|j: int| 0 <= j < a2.len() ==> #[trigger] a2[j] != '-',
    ensures
        a1 == a2,
        b1 == b2,
{
    let s1 = a1 + seq!['-'] + b1;
    let s2 = a2 + seq!['-'] + b2;
    if a1.len() < a2.len() {
        assert(s1[a1.len() as int] == '-');
        assert(s2[a1.len() as int] == a2[a1.len() as int]);
        assert(false);
    } else if a2.len() < a1.len() {
        assert(s2[a2.len() as int] == '-');
        assert(s1[a2.len() as int] == a1[a2.len() as int]);
        assert(false);
    } else {
        assert forall|j: int| 0 <= j < a1.len() implies a1[j] == a2[j] by {
            assert(s1[j] == a1[j]);
            assert(s2[j] == a2[j]);
        }
        assert(a1 =~= a2);
        assert(s1.len() == a1.len() + 1 + b1.len());
        assert(s2.len() == a2.len() + 1 + b2.len());
        assert(s1.len() == s2.len());
        assert(b1.len() == b2.len());
        assert forall|j: int| 0 <= j < b1.len() implies b1[j] == b2[j] by {
            assert(s1[a1.len() + 1 + j] == b1[j]);
            assert(s2[a2.len() + 1 + j] == b2[j]);
        }
        assert(b1 =~= b2);
    }
}

/// Key soundness: distinct coordinates give distinct keys within each
/// namespace, and the two namespaces never collide — so a re-run overwrites
/// the very keys it wrote before, and disjoint laws touch disjoint keys.
pub proof fn lemma_keys_injective(id1: Seq<char>, i1: nat, id2: Seq<char>, i2: nat)
    requires
        law_id_wellformed(id1),
        law_id_wellformed(id2),
    ensures
        text_key_spec(id1, i1) == text_key_spec(id2, i2) ==> id1 == id2 && i1 == i2,
        embed_key_spec(id1, i1) == embed_key_spec(id2, i2) ==> id1 == id2 && i1 == i2,
        text_key_spec(id1, i1) != embed_key_spec(id2, i2),
{
    reveal_strlit("paragraphs/");
    reveal_strlit("embeddings/");
    let tp = "paragraphs/"@;
    let ep = "embeddings/"@;
    lemma_dec_digits_are_digits(i1);
    lemma_dec_digits_are_digits(i2);
    assert('-' as u32 == 45);
    if text_key_spec(id1, i1) == text_key_spec(id2, i2) {
        let a1 = tp + id1;
        let a2 = tp + id2;
        assert(tp + id1 + seq!['-'] + dec_digits(i1) =~= a1 + seq!['-'] + dec_digits(i1));
        assert(tp + id2 + seq!['-'] + dec_digits(i2) =~= a2 + seq!['-'] + dec_digits(i2));
        assert forall|j: int| 0 <= j < a1.len() implies #[trigger] a1[j] != '-' by {
            if j < tp.len() {
                assert(a1[j] == tp[j]);
            } else {
                assert(a1[j] == id1[j - tp.len()]);
            }
        }
        assert forall|j: int| 0 <= j < a2.len() implies #[trigger] a2[j] != '-' by {
            if j < tp.len() {
                assert(a2[j] == tp[j]);
            } else {
                assert(a2[j] == id2[j - tp.len()]);
            }
        }
        lemma_dash_split(a1, dec_digits(i1), a2, dec_digits(i2));
        assert forall|j: int| 0 <= j < id1.len() implies id1[j] == id2[j] by {
            assert(a1[tp.len() + j] == id1[j]);
            assert(a2[tp.len() + j] == id2[j]);
        }
        assert(id1 =~= id2);
        lemma_dec_digits_injective(i1, i2);
    }
    if embed_key_spec(id1, i1) == embed_key_spec(id2, i2) {
        let a1 = ep + id1;
        let a2 = ep + id2;
        assert(ep + id1 + seq!['-'] + dec_digits(i1) =~= a1 + seq!['-'] + dec_digits(i1));
        assert(ep + id2 + seq!['-'] + dec_digits(i2) =~= a2 + seq!['-'] + dec_digits(i2));
        assert forall|j: int| 0 <= j < a1.len() implies #[trigger] a1[j] != '-' by {
            if j < ep.len() {
                assert(a1[j] == ep[j]);
            } else {
                assert(a1[j] == id1[j - ep.len()]);
            }
        }
        assert forall|j: int| 0 <= j < a2.len() implies #[trigger] a2[j] != '-' by {
            if j < ep.len() {
                assert(a2[j] == ep[j]);
            } else {
                assert(a2[j] == id2[j - ep.len()]);
            }
        }
        lemma_dash_split(a1, dec_digits(i1), a2, dec_digits(i2));
        assert forall|j: int| 0 <= j < id1.len() implies id1[j] == id2[j] by {
            assert(a1[ep.len() + j] == id1[j]);
            assert(a2[ep.len() + j] == id2[j]);
        }
        assert(id1 =~= id2);
        lemma_dec_digits_injective(i1, i2);
    }
    if text_key_spec(id1, i1) == embed_key_spec(id2, i2) {
        assert(text_key_spec(id1, i1)[0] == tp[0]);
        assert(embed_key_spec(id2, i2)[0] == ep[0]);
        assert(false);
    }
}

/// One law as one index page lists it: its normalized identifier and its
/// ordered, index-prefixed paragraphs.
pub struct PageLaw {
    pub law_id: String,
    pub paragraphs: Vec<String>,
}

/// What every produced `PageLaw` satisfies: a well-formed identifier and
/// densely numbered paragraphs.
pub open spec fn page_law_wellformed(l: PageLaw) -> bool {
    &&& law_id_wellformed(l.law_id@)
    &&& forall|i: int|
        0 <= i < l.paragraphs@.len() ==> paragraph_number(#[trigger] l.paragraphs@[i]@) == Some(
            i as nat,
        )
}

/// Resolves one index-listed link: re-fetches its detail page, extracts the
/// single canonical statute URL (skip one, take one on the link selector),
/// and matches the law-identifier pattern against it. `None` where the
/// extraction yields nothing or the pattern fails to match — such links are
/// non-statute or stale entries, to be skipped silently, never fatal.
pub fn resolve<F: Fetcher>(f: &mut F, cfg: &CrawlConfig, link: &str) -> (r: Option<
    (String, String),
>)
    ensures
        r matches Some(pair) ==> law_id_wellformed(pair.0@) && (law_id_of(pair.1@) matches Some(
            v,
        ) && v == pair.0@),
{
    let canon = extract_tag(f, link, cfg.ignore, 1, cfg.link_selector.as_str(), "href");
    if canon.len() == 0 {
        return None;
    }
    match resolve_law_id(canon[0].as_str()) {
        Some(id) => {
            proof {
                lemma_law_id_wellformed(canon@[0]@);
            }
            let url = canon[0].clone();
            Some((id, url))
        },
        None => None,
    }
}

/// Resolves each link of one index page into a law: canonical URL and
/// identifier through `resolve`, paragraphs through segmentation of the
/// canonical page's body text. Links that resolve to no identifier or no
/// paragraphs are skipped, never fatal.
pub fn page_laws<F: Fetcher>(f: &mut F, cfg: &CrawlConfig, links: &Vec<String>) -> (r: Vec<
    PageLaw,
>)
    ensures
        r@.len() <= links@.len(),
        forall|k: int| 0 <= k < r@.len() ==> page_law_wellformed(#[trigger] r@[k]),
{
    let mut out: Vec<PageLaw> = Vec::new();
    let mut i: usize = 0;
    while i < links.len()
        invariant
            i <= links.len(),
            out@.len() <= i,
            forall|k: int| 0 <= k < out@.len() ==> page_law_wellformed(#[trigger] out@[k]),
        decreases links.len() - i,
    {
        match resolve(f, cfg, links[i].as_str()) {
            Some(pair) => {
                let (id, url) = pair;
                let ps = write_paragraphs(f, cfg, url.as_str());
                if ps.len() > 0 {
                    let law = PageLaw { law_id: id, paragraphs: ps };
                    out.push(law);
                }
            },
            None => {},
        }
        i += 1;
    }
    out
}

/// Lists the laws of index page `page`: at most one listing page's worth.
pub fn scrape_page<F: Fetcher>(f: &mut F, cfg: &CrawlConfig, page: u64) -> (r: Vec<PageLaw>)
    ensures
        r@.len() <= cfg.page_size,
        forall|k: int| 0 <= k < r@.len() ==> page_law_wellformed(#[trigger] r@[k]),
{
    let links = main_page_links(f, cfg, page, cfg.page_size);
    page_laws(f, cfg, &links)
}

/// The mathematical image of one write.
pub struct OpModel {
    pub key: Seq<char>,
    pub content: Seq<char>,
}

pub open spec fn op_model(op: WriteOp) -> OpModel {
    OpModel { key: op.key@, content: op.content@ }
}

pub open spec fn ops_model(ops: Seq<WriteOp>) -> Seq<OpModel> {
    ops.map_values(|o: WriteOp| op_model(o))
}

/// The write plan for one law, given its paragraphs and, per paragraph, the
/// embedding that was obtained (or `None`): paragraph texts are persisted
/// always, in strictly increasing index order, each directly followed by
/// its embedding where one was obtained.
pub open spec fn law_ops_spec(
    id: Seq<char>,
    paras: Seq<Seq<char>>,
    embeds: Seq<Option<Seq<char>>>,
) -> Seq<OpModel>
    decreases paras.len(),
{
    if paras.len() == 0 {
        Seq::empty()
    } else {
        let i = (paras.len() - 1) as nat;
        let text_op = OpModel { key: text_key_spec(id, i), content: paras.last() };
        let tail = match embeds.last() {
            None => seq![text_op],
            Some(e) => seq![text_op, OpModel { key: embed_key_spec(id, i), content: e }],
        };
        law_ops_spec(id, paras.drop_last(), embeds.drop_last()) + tail
    }
}

/// Every planned write addresses one paragraph coordinate of a well-formed
/// law identifier, in one of the two namespaces.
pub open spec fn op_wellformed(op: OpModel) -> bool {
    exists|id: Seq<char>, i: nat|
        #![auto]
        law_id_wellformed(id) && (op.key == text_key_spec(id, i) || op.key == embed_key_spec(
            id,
            i,
        ))
}

proof fn lemma_law_ops_wellformed(
    id: Seq<char>,
    paras: Seq<Seq<char>>,
    embeds: Seq<Option<Seq<char>>>,
)
    requires
        law_id_wellformed(id),
    ensures
        forall|j: int|
            0 <= j < law_ops_spec(id, paras, embeds).len() ==> op_wellformed(
                #[trigger] law_ops_spec(id, paras, embeds)[j],
            ),
    decreases paras.len(),
{
    if paras.len() > 0 {
        lemma_law_ops_wellformed(id, paras.drop_last(), embeds.drop_last());
        let pre = law_ops_spec(id, paras.drop_last(), embeds.drop_last());
        let all = law_ops_spec(id, paras, embeds);
        let i = (paras.len() - 1) as nat;
        assert forall|j: int| 0 <= j < all.len() implies op_wellformed(#[trigger] all[j]) by {
            if j < pre.len() {
                assert(all[j] == pre[j]);
            } else {
                assert(all[j].key == text_key_spec(id, i) || all[j].key == embed_key_spec(
                    id,
                    i,
                ));
            }
        }
    }
}

/// The write addresses paragraph coordinate `i` of law `id`, in one of the
/// two namespaces.
pub open spec fn op_at_coord(op: OpModel, id: Seq<char>, i: nat) -> bool {
    op.key == text_key_spec(id, i) || op.key == embed_key_spec(id, i)
}

/// The write addresses some paragraph coordinate below `bound`.
pub open spec fn op_within(op: OpModel, id: Seq<char>, bound: nat) -> bool {
    exists|i: nat| #![auto] i < bound && op_at_coord(op, id, i)
}

proof fn lemma_law_ops_coords(id: Seq<char>, paras: Seq<Seq<char>>, embeds: Seq<Option<Seq<char>>>)
    ensures
        forall|j: int|
            0 <= j < law_ops_spec(id, paras, embeds).len() ==> op_within(
                #[trigger] law_ops_spec(id, paras, embeds)[j],
                id,
                paras.len(),
            ),
    decreases paras.len(),
{
    if paras.len() > 0 {
        lemma_law_ops_coords(id, paras.drop_last(), embeds.drop_last());
        let pre = law_ops_spec(id, paras.drop_last(), embeds.drop_last());
        let all = law_ops_spec(id, paras, embeds);
        let n1 = (paras.len() - 1) as nat;
        assert forall|j: int| 0 <= j < all.len() implies op_within(
            #[trigger] all[j],
            id,
            paras.len(),
        ) by {
            if j < pre.len() {
                assert(all[j] == pre[j]);
                assert(op_within(pre[j], id, paras.drop_last().len()));
                let i = choose|i: nat|
                    #![auto]
                    i < paras.drop_last().len() && op_at_coord(pre[j], id, i);
                assert(i < paras.len() && op_at_coord(all[j], id, i));
            } else {
                assert(op_at_coord(all[j], id, n1));
                assert(n1 < paras.len() && op_at_coord(all[j], id, n1));
            }
        }
    }
}

/// No duplication: within one law's plan, all keys are pairwise distinct, so
/// no write of the plan can clobber another.
pub proof fn lemma_law_ops_keys_distinct(
    id: Seq<char>,
    paras: Seq<Seq<char>>,
    embeds: Seq<Option<Seq<char>>>,
)
    requires
        law_id_wellformed(id),
    ensures
        forall|j1: int, j2: int|
            0 <= j1 < j2 < law_ops_spec(id, paras, embeds).len() ==> (#[trigger] law_ops_spec(
                id,
                paras,
                embeds,
            )[j1]).key != (#[trigger] law_ops_spec(id, paras, embeds)[j2]).key,
    decreases paras.len(),
{
    if paras.len() > 0 {
        lemma_law_ops_keys_distinct(id, paras.drop_last(), embeds.drop_last());
        lemma_law_ops_coords(id, paras.drop_last(), embeds.drop_last());
        let pre = law_ops_spec(id, paras.drop_last(), embeds.drop_last());
        let all = law_ops_spec(id, paras, embeds);
        let n1 = (paras.len() - 1) as nat;
        assert forall|j1: int, j2: int|
            0 <= j1 < j2 < all.len() implies (#[trigger] all[j1]).key != (
        #[trigger] all[j2]).key by {
            if j2 < pre.len() {
                assert(all[j1] == pre[j1]);
                assert(all[j2] == pre[j2]);
            } else if j1 < pre.len() {
                assert(all[j1] == pre[j1]);
                assert(op_within(pre[j1], id, paras.drop_last().len()));
                let i = choose|i: nat|
                    #![auto]
                    i < paras.drop_last().len() && op_at_coord(pre[j1], id, i);
                lemma_keys_injective(id, i, id, n1);
                lemma_keys_injective(id, n1, id, i);
                assert(op_at_coord(all[j2], id, n1));
                if all[j1].key == all[j2].key {
                    assert(i == n1);
                    assert(false);
                }
            } else {
                assert(all[j1].key == text_key_spec(id, n1));
                assert(all[j2].key == embed_key_spec(id, n1));
                lemma_keys_injective(id, n1, id, n1);
            }
        }
    }
}

/// A write addresses at most one coordinate of a well-formed law.
proof fn lemma_coord_unique(id: Seq<char>, op: OpModel, i1: nat, i2: nat)
    requires
        law_id_wellformed(id),
        op_at_coord(op, id, i1),
        op_at_coord(op, id, i2),
    ensures
        i1 == i2,
{
    lemma_keys_injective(id, i1, id, i2);
    lemma_keys_injective(id, i2, id, i1);
}

/// Ordering: within one law's plan, writes appear in increasing paragraph
/// order — a write addressing coordinate `i1` never follows one addressing
/// a smaller coordinate.
pub proof fn lemma_law_ops_ordered(
    id: Seq<char>,
    paras: Seq<Seq<char>>,
    embeds: Seq<Option<Seq<char>>>,
    j1: int,
    j2: int,
    i1: nat,
    i2: nat,
)
    requires
        law_id_wellformed(id),
        0 <= j1 <= j2 < law_ops_spec(id, paras, embeds).len(),
        op_at_coord(law_ops_spec(id, paras, embeds)[j1], id, i1),
        op_at_coord(law_ops_spec(id, paras, embeds)[j2], id, i2),
    ensures
        i1 <= i2,
    decreases paras.len(),
{
    if paras.len() > 0 {
        let pre = law_ops_spec(id, paras.drop_last(), embeds.drop_last());
        let all = law_ops_spec(id, paras, embeds);
        let n1 = (paras.len() - 1) as nat;
        lemma_law_ops_coords(id, paras.drop_last(), embeds.drop_last());
        if j2 < pre.len() {
            assert(all[j1] == pre[j1]);
            assert(all[j2] == pre[j2]);
            lemma_law_ops_ordered(id, paras.drop_last(), embeds.drop_last(), j1, j2, i1, i2);
        } else {
            assert(op_at_coord(all[j2], id, n1));
            lemma_coord_unique(id, all[j2], i2, n1);
            if j1 < pre.len() {
                assert(all[j1] == pre[j1]);
                assert(op_within(pre[j1], id, paras.drop_last().len()));
                let ip = choose|ip: nat|
                    #![auto]
                    ip < paras.drop_last().len() && op_at_coord(pre[j1], id, ip);
                lemma_coord_unique(id, all[j1], i1, ip);
            } else {
                assert(op_at_coord(all[j1], id, n1));
                lemma_coord_unique(id, all[j1], i1, n1);
            }
        }
    }
}

/// Completeness: whatever the embeddings did, every paragraph of the law
/// has its text planned, under its own text key and with exactly its
/// content.
pub proof fn lemma_law_ops_complete(
    id: Seq<char>,
    paras: Seq<Seq<char>>,
    embeds: Seq<Option<Seq<char>>>,
)
    requires
        embeds.len() == paras.len(),
    ensures
        forall|i: int|
            0 <= i < paras.len() ==> #[trigger] law_ops_spec(id, paras, embeds).contains(
                OpModel { key: text_key_spec(id, i as nat), content: paras[i] },
            ),
    decreases paras.len(),
{
    if paras.len() > 0 {
        lemma_law_ops_complete(id, paras.drop_last(), embeds.drop_last());
        let pre = law_ops_spec(id, paras.drop_last(), embeds.drop_last());
        let all = law_ops_spec(id, paras, embeds);
        let n1 = paras.len() - 1;
        assert forall|i: int| 0 <= i < paras.len() implies #[trigger] all.contains(
            (OpModel { key: text_key_spec(id, i as nat), content: paras[i] }),
        ) by {
            let target = OpModel { key: text_key_spec(id, i as nat), content: paras[i] };
            if i < n1 {
                assert(paras.drop_last()[i] == paras[i]);
                assert(pre.contains(
                    (OpModel {
                        key: text_key_spec(id, i as nat),
                        content: paras.drop_last()[i],
                    }),
                ));
                let j = choose|j: int| 0 <= j < pre.len() && pre[j] == target;
                assert(all[j] == target);
            } else {
                assert(all[pre.len() as int] == target);
            }
        }
    }
}

/// The plan a call produced, related to the embeddings it obtained.
pub open spec fn law_ops_witnessed(
    ops: Seq<OpModel>,
    id: Seq<char>,
    paras: Seq<Seq<char>>,
    embeds: Seq<Option<Seq<char>>>,
) -> bool {
    &&& embeds.len() == paras.len()
    &&& forall|i: int|
        0 <= i < embeds.len() ==> (#[trigger] embeds[i] matches Some(e) ==> usable_serialized(e))
    &&& ops == law_ops_spec(id, paras, embeds)
}

/// Plans the writes for one law: every paragraph's text under its text key,
/// and, where the embedding protocol succeeds within `max_attempts`, the
/// serialized embedding under the sibling embedding key.
pub fn law_write_ops<P: EmbedProvider>(prov: &mut P, law: &PageLaw, max_attempts: u64) -> (r:
    Vec<WriteOp>)
    ensures
        exists|embeds: Seq<Option<Seq<char>>>|
            law_ops_witnessed(
                #[trigger] ops_model(r@),
                law.law_id@,
                string_views(law.paragraphs@),
                embeds,
            ),
        law_id_wellformed(law.law_id@) ==> forall|j: int|
            0 <= j < ops_model(r@).len() ==> op_wellformed(#[trigger] ops_model(r@)[j]),
        law_id_wellformed(law.law_id@) ==> forall|j1: int, j2: int|
            0 <= j1 < j2 < ops_model(r@).len() ==> (#[trigger] ops_model(r@)[j1]).key != (
            #[trigger] ops_model(r@)[j2]).key,
{
    let ghost paras = string_views(law.paragraphs@);
    let mut r: Vec<WriteOp> = Vec::new();
    let ghost mut embeds: Seq<Option<Seq<char>>> = Seq::empty();
    let mut i: usize = 0;
    proof {
        assert(ops_model(r@) =~= law_ops_spec(law.law_id@, paras.subrange(0, 0), embeds));
    }
    while i < law.paragraphs.len()
        invariant
            i <= law.paragraphs@.len(),
            paras == string_views(law.paragraphs@),
            embeds.len() == i,
            forall|k: int|
                0 <= k < embeds.len() ==> (#[trigger] embeds[k] matches Some(e)
                    ==> usable_serialized(e)),
            ops_model(r@) == law_ops_spec(law.law_id@, paras.subrange(0, i as int), embeds),
        decreases law.paragraphs@.len() - i,
    {
        let ghost prev_ops = ops_model(r@);
        let ghost prev_embeds = embeds;
        let key = text_key(law.law_id.as_str(), i as u64);
        let content = law.paragraphs[i].clone();
        let text_op = WriteOp { key, content };
        let ghost text_op_m = op_model(text_op);
        r.push(text_op);
        let outcome = embed(prov, law.paragraphs[i].as_str(), max_attempts);
        match outcome {
            Ok(e) => {
                let ekey = embed_key(law.law_id.as_str(), i as u64);
                proof {
                    embeds = embeds.push(Some(e@));
                }
                let eop = WriteOp { key: ekey, content: e };
                r.push(eop);
            },
            Err(_) => {
                proof {
                    embeds = embeds.push(None);
                }
            },
        }
        proof {
            let id = law.law_id@;
            let pre = paras.subrange(0, i as int);
            let cur = paras.subrange(0, i + 1);
            assert(cur.drop_last() =~= pre);
            assert(cur.last() == paras[i as int]);
            assert(embeds.drop_last() =~= prev_embeds);
            assert(paras[i as int] == law.paragraphs@[i as int]@);
            assert(text_op_m.key == text_key_spec(id, i as nat));
            assert(text_op_m.content == paras[i as int]);
            assert(law_ops_spec(id, cur, embeds) == law_ops_spec(id, pre, prev_embeds) + (
            match embeds.last() {
                None => seq![
                    OpModel { key: text_key_spec(id, i as nat), content: paras[i as int] },
                ],
                Some(e) => seq![
                    OpModel { key: text_key_spec(id, i as nat), content: paras[i as int] },
                    OpModel { key: embed_key_spec(id, i as nat), content: e },
                ],
            }));
            assert(ops_model(r@) =~= law_ops_spec(id, cur, embeds));
        }
        i += 1;
    }
    proof {
        assert(paras.subrange(0, paras.len() as int) =~= paras);
        assert(law_ops_witnessed(ops_model(r@), law.law_id@, paras, embeds));
        if law_id_wellformed(law.law_id@) {
            lemma_law_ops_wellformed(law.law_id@, paras, embeds);
            lemma_law_ops_keys_distinct(law.law_id@, paras, embeds);
        }
    }
    r
}

/// Idempotent persistence: the write plan is a function of the law's
/// identifier, its paragraphs and the embeddings obtained — two runs that
/// resolve the same laws and obtain the same embeddings plan identical
/// writes, key for key and content for content.
pub proof fn lemma_plan_deterministic(
    id: Seq<char>,
    paras: Seq<Seq<char>>,
    embeds: Seq<Option<Seq<char>>>,
    first: Seq<OpModel>,
    second: Seq<OpModel>,
)
    requires
        first == law_ops_spec(id, paras, embeds),
        second == law_ops_spec(id, paras, embeds),
    ensures
        first == second,
{
}

/// What one page's processing yields: the distinguishable no-links signal —
/// the backpressure cool-down path — or the batch of writes to persist.
pub enum PageOutcome {
    NoLinks,
    Batch { ops: Vec<WriteOp> },
}

/// Processes the links of one index page: resolves them into laws, plans
/// every law's writes, and signals `NoLinks` exactly when the page listed
/// no links at all — the caller's cue to cool down, never an error.
pub fn process_links<F: Fetcher, P: EmbedProvider>(
    f: &mut F,
    prov: &mut P,
    cfg: &CrawlConfig,
    links: &Vec<String>,
    max_attempts: u64,
) -> (r: PageOutcome)
    ensures
        (r is NoLinks) <==> links@.len() == 0,
        r matches PageOutcome::Batch { ops } ==> forall|j: int|
            0 <= j < ops_model(ops@).len() ==> op_wellformed(#[trigger] ops_model(ops@)[j]),
{
    if links.len() == 0 {
        return PageOutcome::NoLinks;
    }
    let laws = page_laws(f, cfg, links);
    let mut ops: Vec<WriteOp> = Vec::new();
    let mut k: usize = 0;
    while k < laws.len()
        invariant
            k <= laws.len(),
            forall|m: int| 0 <= m < laws@.len() ==> page_law_wellformed(#[trigger] laws@[m]),
            forall|j: int|
                0 <= j < ops_model(ops@).len() ==> op_wellformed(#[trigger] ops_model(ops@)[j]),
        decreases laws.len() - k,
    {
        let mut lops = law_write_ops(prov, &laws[k], max_attempts);
        let ghost old_ops = ops@;
        let ghost new_ops = lops@;
        ops.append(&mut lops);
        proof {
            assert(ops_model(ops@) =~= ops_model(old_ops) + ops_model(new_ops));
        }
        k += 1;
    }
    PageOutcome::Batch { ops }
}

/// Processes one index page end to end: list links, resolve laws, segment,
/// embed, and plan the writes; `NoLinks` exactly when the index page listed
/// nothing.
pub fn process_page<F: Fetcher, P: EmbedProvider>(
    f: &mut F,
    prov: &mut P,
    cfg: &CrawlConfig,
    page: u64,
    max_attempts: u64,
) -> (r: PageOutcome)
    ensures
        r matches PageOutcome::Batch { ops } ==> forall|j: int|
            0 <= j < ops_model(ops@).len() ==> op_wellformed(#[trigger] ops_model(ops@)[j]),
{
    let links = main_page_links(f, cfg, page, cfg.page_size);
    process_links(f, prov, cfg, &links, max_attempts)
}

/// The pages of the inclusive range `lo..=hi` that worker `worker` owns
/// under a pool of `width` workers: those whose number leaves remainder
/// `worker`, in increasing order.
pub open spec fn worker_pages(worker: u64, width: u64, lo: int, hi: int) -> Seq<u64>
    decreases hi - lo + 1,
    when width >= 1
{
    if lo > hi {
        Seq::empty()
    } else {
        let head: Seq<u64> = if lo % (width as int) == worker as int {
            seq![lo as u64]
        } else {
            Seq::empty()
        };
        head + worker_pages(worker, width, lo + 1, hi)
    }
}

/// Membership: worker `worker` owns page `p` exactly when `p` lies in the
/// range and leaves remainder `worker` modulo the pool width.
pub proof fn lemma_worker_pages_member(worker: u64, width: u64, lo: int, hi: int, p: u64)
    requires
        width >= 1,
        0 <= lo,
        hi < 0x1_0000_0000_0000_0000,
    ensures
        worker_pages(worker, width, lo, hi).contains(p) <==> (lo <= p as int <= hi && p % width
            == worker),
    decreases hi - lo + 1,
{
    let s = worker_pages(worker, width, lo, hi);
    if lo > hi {
        assert(!s.contains(p));
    } else {
        lemma_worker_pages_member(worker, width, lo + 1, hi, p);
        let rest = worker_pages(worker, width, lo + 1, hi);
        let head: Seq<u64> = if lo % (width as int) == worker as int {
            seq![lo as u64]
        } else {
            Seq::empty()
        };
        assert(s == head + rest);
        if s.contains(p) {
            let i = choose|i: int| 0 <= i < s.len() && s[i] == p;
            if i < head.len() {
                assert(p == lo as u64);
            } else {
                assert(rest[i - head.len()] == p);
                assert(rest.contains(p));
            }
        }
        if lo <= p as int <= hi && p % width == worker {
            if p as int == lo {
                assert(s[0] == p);
                assert(s.contains(p));
            } else {
                assert(rest.contains(p));
                let i = choose|i: int| 0 <= i < rest.len() && rest[i] == p;
                assert(s[head.len() + i] == p);
                assert(s.contains(p));
            }
        }
    }
}

/// Ownership is exclusive and total: every page of the range is owned, and
/// by exactly one worker — the one its remainder names.
pub proof fn lemma_page_owned_once(width: u64, lo: int, hi: int, p: u64, w1: u64, w2: u64)
    requires
        width >= 1,
        0 <= lo,
        lo <= p as int <= hi,
        hi < 0x1_0000_0000_0000_0000,
    ensures
        worker_pages(p % width, width, lo, hi).contains(p),
        worker_pages(w1, width, lo, hi).contains(p) && worker_pages(w2, width, lo, hi).contains(
            p,
        ) ==> w1 == w2,
{
    lemma_worker_pages_member(p % width, width, lo, hi, p);
    lemma_worker_pages_member(w1, width, lo, hi, p);
    lemma_worker_pages_member(w2, width, lo, hi, p);
}

/// Lists the pages of `lo..=hi` that worker `worker` owns, in increasing
/// order.
pub fn pages_for_worker(worker: u64, width: u64, lo: u64, hi: u64) -> (r: Vec<u64>)
    requires
        1 <= width,
        worker < width,
    ensures
        r@ == worker_pages(worker, width, lo as int, hi as int),
{
    let mut r: Vec<u64> = Vec::new();
    if lo > hi {
        proof {
            assert(worker_pages(worker, width, lo as int, hi as int) =~= r@);
        }
        return r;
    }
    let mut p: u64 = lo;
    proof {
        assert(r@ + worker_pages(worker, width, lo as int, hi as int) =~= worker_pages(
            worker,
            width,
            lo as int,
            hi as int,
        ));
    }
    loop
        invariant_except_break
            1 <= width,
            lo <= p <= hi,
            worker_pages(worker, width, lo as int, hi as int) == r@ + worker_pages(
                worker,
                width,
                p as int,
                hi as int,
            ),
        ensures
            worker_pages(worker, width, lo as int, hi as int) == r@,
        decreases hi - p,
    {
        let ghost before = r@;
        if p % width == worker {
            r.push(p);
        }
        proof {
            let head: Seq<u64> = if p as int % (width as int) == worker as int {
                seq![p as u64]
            } else {
                Seq::empty()
            };
            assert(worker_pages(worker, width, p as int, hi as int) == head + worker_pages(
                worker,
                width,
                p as int + 1,
                hi as int,
            ));
            assert(before + (head + worker_pages(worker, width, p as int + 1, hi as int)) =~= r@
                + worker_pages(worker, width, p as int + 1, hi as int));
        }
        if p == hi {
            proof {
                assert(worker_pages(worker, width, p as int + 1, hi as int) =~= Seq::<
                    u64,
                >::empty());
                assert(r@ + worker_pages(worker, width, p as int + 1, hi as int) =~= r@);
            }
            break;
        }
        p += 1;
    }
    r
}

} // verus!
