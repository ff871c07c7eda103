//! Records to baked sprites: the content bridge and the rasteriser in one step, for one record and
//! for a whole table.

use vstd::prelude::*;
use vstd::string::*;

use crate::sprite::baked::{BakedSprite, SpriteArt, is_bake_of, seq_texts};
use crate::sprite::content::{
    ContentArt, ContentSeq, FromContentOpts, content_seq_fault, content_seqs_fault, is_art_of,
    is_seq_of, sprite_art_from_content,
};
use crate::sprite::error::{SpriteError, SpriteFault, fault_text};
use crate::sprite::frames::{frame_texts, texts};
use crate::sprite::ids::StateId;

verus! {

/// Why a record could not be baked.
#[derive(Clone, Debug, PartialEq, Eq)]
pub enum BakeError {
    /// The record or its art is malformed.
    Sprite(SpriteError),
    /// Its sizes do not fit the integers they are kept in.
    TooLarge,
}

/// The error in words.
pub open spec fn bake_text(e: BakeError) -> Seq<char> {
    match e {
        BakeError::Sprite(fault) => fault_text(fault@),
        BakeError::TooLarge => "the art is too large"@,
    }
}

impl BakeError {
    /// The error in words.
    pub fn message(&self) -> (out: String)
        ensures
            out@ == bake_text(*self),
    {
        match self {
            BakeError::Sprite(e) => e.message(),
            BakeError::TooLarge => String::from_str("the art is too large"),
        }
    }
}

/// The record has sequences, and rows too many for the integer they are counted in.
pub open spec fn has_too_many_rows(art: ContentArt) -> bool {
    art.cells_w > 0 && art.cells_h > 0 && art.seq@.len() > 0 && art.rows() > u32::MAX
}

/// Nothing is wrong with the record `art` itself, and `b` is the record through the content bridge
/// and then rasterised.
pub open spec fn bakes_to(b: BakedSprite, art: ContentArt, opts: FromContentOpts, who: Seq<char>) -> bool {
    &&& !has_too_many_rows(art)
    &&& art.fault(who) is None
    &&& exists|sprite: SpriteArt|
        is_art_of(sprite, art, opts) && sprite.fault(who) is None && sprite.fits()
            && #[trigger] is_bake_of(b, sprite, who)
}

/// The first thing wrong with the record is this: one of its own faults, or where it has none the
/// first of the art it becomes.
pub open spec fn is_malformed(art: ContentArt, opts: FromContentOpts, who: Seq<char>, fault: SpriteFault) -> bool {
    &&& !has_too_many_rows(art)
    &&& match art.fault(who) {
        Some(own) => own == fault,
        None => exists|sprite: SpriteArt| #[trigger]
            is_art_of(sprite, art, opts) && !sprite.outgrows(who) && sprite.fault(who) == Some(fault),
    }
}

/// The record does not fit the integers a bake works with: its rows cannot be counted, or nothing
/// is wrong with it and the art it becomes is too large.
pub open spec fn is_too_large(art: ContentArt, opts: FromContentOpts, who: Seq<char>) -> bool {
    ||| has_too_many_rows(art)
    ||| art.fault(who) is None && exists|sprite: SpriteArt| #[trigger]
        is_art_of(sprite, art, opts) && sprite.outgrows(who)
}

/// The record is refused for this reason.
pub open spec fn is_refused(art: ContentArt, opts: FromContentOpts, who: Seq<char>, e: BakeError) -> bool {
    match e {
        BakeError::Sprite(fault) => is_malformed(art, opts, who, fault@),
        BakeError::TooLarge => is_too_large(art, opts, who),
    }
}

/// A record decides all there is to say of the art it becomes: what is wrong with it, and whether
/// it fits. So a record bakes exactly when neither it nor that art is malformed or too large.
pub proof fn law_record_decides_the_art(
    a: SpriteArt,
    b: SpriteArt,
    art: ContentArt,
    opts: FromContentOpts,
    who: Seq<char>,
)
    requires
        is_art_of(a, art, opts),
        is_art_of(b, art, opts),
    ensures
        a.fault(who) == b.fault(who),
        a.fits() == b.fits(),
        a.outgrows(who) == b.outgrows(who),
{
    assert forall|i: int| 0 <= i < art.seq@.len() implies seq_texts(a.seqs@)[i] == seq_texts(
        b.seqs@,
    )[i] by {
        assert(is_seq_of(a.seqs@[i], art.seq@[i], art, opts));
        assert(is_seq_of(b.seqs@[i], art.seq@[i], art, opts));
    }
    assert(seq_texts(a.seqs@) =~= seq_texts(b.seqs@));
    assert(a.poses@ =~= b.poses@);
    assert(texts(a.pal@).len() == a.pal@.len());
    assert(texts(b.pal@).len() == b.pal@.len());
}

/// A record is refused for one reason, and one that bakes for none.
pub proof fn law_a_record_is_refused_for_one_reason(
    art: ContentArt,
    opts: FromContentOpts,
    who: Seq<char>,
    e: BakeError,
    other: BakeError,
    b: BakedSprite,
)
    requires
        is_refused(art, opts, who, e),
    ensures
        is_refused(art, opts, who, other) ==> match (e, other) {
            (BakeError::Sprite(x), BakeError::Sprite(y)) => x@ == y@,
            (BakeError::TooLarge, BakeError::TooLarge) => true,
            _ => false,
        },
        !bakes_to(b, art, opts, who),
{
    assert forall|x: SpriteArt, y: SpriteArt| #[trigger]
        is_art_of(x, art, opts) && #[trigger] is_art_of(y, art, opts) implies x.fault(who)
        == y.fault(who) && x.fits() == y.fits() && x.outgrows(who) == y.outgrows(who) by {
        law_record_decides_the_art(x, y, art, opts, who);
    }
}

/// One record through the content bridge and the rasteriser.
pub fn bake_one(art: &ContentArt, who: &str, opts: &FromContentOpts) -> (out: Result<
    BakedSprite,
    BakeError,
>)
    ensures
        match out {
            Ok(b) => b.wf() && bakes_to(b, *art, *opts, who@),
            Err(e) => is_refused(*art, *opts, who@, e),
        },
{
    if art.cells_w > 0 && art.cells_h > 0 && art.seq.len() > 0 {
        let grain: i64 = if art.grain < 1 {
            1
        } else {
            art.grain as i64
        };
        let cells: i64 = art.cells_h as i64;
        assert(0 < cells * grain <= 0x7fff_ffff * 0x7fff_ffff) by (nonlinear_arith)
            requires
                0 < cells <= 0x7fff_ffff,
                0 < grain <= 0x7fff_ffff,
        ;
        if cells * grain > u32::MAX as i64 {
            return Err(BakeError::TooLarge);
        }
    }
    match sprite_art_from_content(art, who, opts) {
        Err(e) => Err(BakeError::Sprite(e)),
        Ok(sprite) => {
            if sprite.is_too_large(who) {
                return Err(BakeError::TooLarge);
            }
            match BakedSprite::new(&sprite, who) {
                Ok(b) => {
                    assert(is_bake_of(b, sprite, who@));
                    Ok(b)
                },
                Err(e) => Err(BakeError::Sprite(e)),
            }
        },
    }
}

proof fn lemma_no_seq_is_at_fault(seqs: Seq<ContentSeq>, rows: nat, who: Seq<char>, i: nat)
    requires
        content_seqs_fault(seqs, rows, who, i) is None,
    ensures
        forall|j: int|
            i <= j < seqs.len() ==> content_seq_fault(#[trigger] seqs[j], rows, who) is None,
    decreases seqs.len() - i,
{
    if i < seqs.len() {
        lemma_no_seq_is_at_fault(seqs, rows, who, i + 1);
    }
}

/// Every sequence of a record that bakes has a frame to show.
pub proof fn law_baked_record_is_never_blank(
    b: BakedSprite,
    art: ContentArt,
    opts: FromContentOpts,
    who: Seq<char>,
    state: StateId,
)
    requires
        bakes_to(b, art, opts, who),
        state.seq() < b.seq_count(),
    ensures
        b.shows(state),
{
    let sprite = choose|sprite: SpriteArt|
        is_art_of(sprite, art, opts) && sprite.fault(who) is None && sprite.fits()
            && #[trigger] is_bake_of(b, sprite, who);
    let s = state.seq() as int;
    lemma_no_seq_is_at_fault(art.seq@, art.rows(), who, 0);
    assert(content_seq_fault(art.seq@[s], art.rows(), who) is None);
    assert(is_seq_of(sprite.seqs@[s], art.seq@[s], art, opts));
    assert(seq_texts(sprite.seqs@)[s] == frame_texts(sprite.seqs@[s].frames@));
}

/// The options of a table whose records decide everything themselves.
pub open spec fn is_default(opts: FromContentOpts) -> bool {
    opts.fallback@.len() == 0 && opts.rate_scale@.len() == 0 && opts.variants is None
}

/// `b` is the record `def`, an id and its art, baked as it stands: a record with a fault of its own
/// has none such.
pub open spec fn is_entry(b: BakedSprite, def: (String, ContentArt)) -> bool {
    exists|opts: FromContentOpts|
        is_default(opts) && #[trigger] bakes_to(b, def.1, opts, def.0@)
}

/// The record bakes as it stands.
pub open spec fn has_entry(def: (String, ContentArt)) -> bool {
    exists|b: BakedSprite| is_entry(b, def)
}

/// Bake every record of a table, in order. The first that does not bake is reported, by its place.
pub fn bake_sprite_table(records: &Vec<(String, ContentArt)>) -> (out: Result<
    Vec<BakedSprite>,
    (usize, BakeError),
>)
    ensures
        match out {
            Ok(baked) => {
                &&& baked@.len() == records@.len()
                &&& forall|i: int|
                    0 <= i < records@.len() ==> (#[trigger] baked@[i]).wf() && is_entry(
                        baked@[i],
                        records@[i],
                    )
            },
            Err((at, e)) => {
                &&& at < records@.len()
                &&& exists|opts: FromContentOpts|
                    is_default(opts) && #[trigger] is_refused(
                        records@[at as int].1,
                        opts,
                        records@[at as int].0@,
                        e,
                    )
                &&& forall|i: int| 0 <= i < at ==> has_entry(#[trigger] records@[i])
            },
        },
{
    let opts: FromContentOpts = FromContentOpts::default();
    let mut out: Vec<BakedSprite> = Vec::new();
    let mut i: usize = 0;
    while i < records.len()
        invariant
            i <= records@.len(),
            is_default(opts),
            out@.len() == i,
            forall|j: int|
                0 <= j < i ==> (#[trigger] out@[j]).wf() && is_entry(out@[j], records@[j]),
        decreases records@.len() - i,
    {
        match bake_one(&records[i].1, records[i].0.as_str(), &opts) {
            Ok(baked) => {
                assert(is_entry(baked, records@[i as int]));
                out.push(baked);
            },
            Err(e) => {
                assert forall|j: int| 0 <= j < i implies has_entry(#[trigger] records@[j]) by {
                    assert(is_entry(out@[j], records@[j]));
                }
                assert(is_refused(records@[i as int].1, opts, records@[i as int].0@, e));
                return Err((i, e));
            },
        }
        i = i + 1;
    }
    Ok(out)
}

} // verus!
