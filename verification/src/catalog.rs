//! Versioned challenge storage.

use crate::api::ChallengeSummary;
use crate::cutter::ProgrammingMode;
use crate::domain::ChallengeDefinition;
use crate::error::{ServiceError, ServiceResult};
use crate::item::{items_view, BankItem, CatalogSnapshot, ItemView};
use crate::meta::{ChallengeDefinitionDto, ChallengeMeta};
use crate::text::{
    lemma_text_less_asymmetric, lemma_text_less_irreflexive, lemma_text_less_total,
    lemma_text_less_transitive, less, same, text_less,
};
use vstd::prelude::*;

verus! {

/// Challenges by identity and version.
pub type Versions = Map<(Seq<char>, u32), ChallengeDefinitionDto>;

/// Whether a version is the highest stored of a challenge.
pub open spec fn is_latest(versions: Versions, id: Seq<char>, version: u32) -> bool {
    &&& versions.contains_key((id, version))
    &&& forall|other: u32| #[trigger] versions.contains_key((id, other)) ==> other <= version
}

/// Whether any version of a challenge is stored.
pub open spec fn is_known(versions: Versions, id: Seq<char>) -> bool {
    exists|version: u32| versions.contains_key((id, version))
}

/// The highest stored version of a challenge.
pub open spec fn latest(versions: Versions, id: Seq<char>) -> ChallengeDefinitionDto {
    versions[(id, choose|version: u32| is_latest(versions, id, version))]
}

/// The highest version is unique, so what is latest is determined.
pub proof fn law_latest_is_the_highest_version(versions: Versions, id: Seq<char>, version: u32)
    requires
        is_latest(versions, id, version),
    ensures
        latest(versions, id) == versions[(id, version)],
        is_known(versions, id),
        forall|other: u32| is_latest(versions, id, other) ==> other == version,
{
    let chosen = choose|v: u32| is_latest(versions, id, v);
    assert(is_latest(versions, id, chosen));
    assert(versions.contains_key((id, chosen)) && versions.contains_key((id, version)));
    assert forall|other: u32| is_latest(versions, id, other) implies other == version by {
        assert(versions.contains_key((id, other)) && versions.contains_key((id, version)));
    }
}

/// Whether one challenge comes before another on the menu: hand-authored ones
/// lead, then generated ones, each group by identity.
pub open spec fn menu_before(versions: Versions, a: Seq<char>, b: Seq<char>) -> bool {
    let a_generated = latest(versions, a).meta.generator is Some;
    let b_generated = latest(versions, b).meta.generator is Some;
    (!a_generated && b_generated) || (a_generated == b_generated && text_less(a, b))
}

/// Whether a listing entry shows the latest version of its challenge.
pub open spec fn summarises(summary: ChallengeSummary, versions: Versions) -> bool {
    let challenge = latest(versions, summary.id@).challenge;
    &&& is_known(versions, summary.id@)
    &&& summary.name@ == challenge.name@
    &&& summary.description@ == challenge.description@
}

/// Whether a listing shows every challenge once, in menu order.
pub open spec fn is_menu(rows: Seq<ChallengeSummary>, versions: Versions) -> bool {
    &&& forall|i: int| 0 <= i < rows.len() ==> summarises(#[trigger] rows[i], versions)
    &&& forall|i: int, j: int|
        0 <= i < j < rows.len() ==> menu_before(
            versions,
            (#[trigger] rows[i]).id@,
            (#[trigger] rows[j]).id@,
        )
    &&& forall|id: Seq<char>| #[trigger]
        is_known(versions, id) ==> exists|i: int| 0 <= i < rows.len() && (#[trigger] rows[i]).id@ == id
}

/// Whether a challenge may decide a round played in a mode: its latest version
/// is not retired and can be played in that mode.
pub open spec fn playable(versions: Versions, id: Seq<char>, mode: ProgrammingMode) -> bool {
    &&& is_known(versions, id)
    &&& latest(versions, id).meta.calibration.live()
    &&& latest(versions, id).meta@.programming_modes.contains(mode)
}

/// Whether a pool holds exactly the challenges playable in a mode, by identity,
/// each at its latest version.
pub open spec fn is_pool(items: Seq<ItemView>, versions: Versions, mode: ProgrammingMode) -> bool {
    &&& forall|i: int|
        0 <= i < items.len() ==> is_known(versions, (#[trigger] items[i]).id) && items[i].meta == latest(
            versions,
            items[i].id,
        ).meta@ && items[i].meta.programming_modes.contains(mode)
    &&& forall|i: int, j: int|
        0 <= i < j < items.len() ==> text_less((#[trigger] items[i]).id, (#[trigger] items[j]).id)
    &&& forall|id: Seq<char>| #[trigger]
        is_known(versions, id) && latest(versions, id).meta@.programming_modes.contains(mode)
            ==> exists|i: int| 0 <= i < items.len() && (#[trigger] items[i]).id == id
}

/// An item store keyed by identity and version.
///
/// Versions are immutable once written. Recalibration mints a new version
/// rather than editing an existing one, so a historical score cannot change.
#[derive(Debug)]
pub struct CatalogStore {
    dtos: Vec<ChallengeDefinitionDto>,
}

/// The order the store keeps: by identity, then by version.
spec fn key_less(a: ChallengeDefinitionDto, b: ChallengeDefinitionDto) -> bool {
    text_less(a.challenge.id@, b.challenge.id@) || (a.challenge.id@ == b.challenge.id@ && a.meta.version
        < b.meta.version)
}

spec fn ordered(dtos: Seq<ChallengeDefinitionDto>) -> bool {
    forall|i: int, j: int| 0 <= i < j < dtos.len() ==> key_less(#[trigger] dtos[i], #[trigger] dtos[j])
}

spec fn stored(dtos: Seq<ChallengeDefinitionDto>, key: (Seq<char>, u32), i: int) -> bool {
    0 <= i < dtos.len() && dtos[i].challenge.id@ == key.0 && dtos[i].meta.version == key.1
}

spec fn versions_of(dtos: Seq<ChallengeDefinitionDto>) -> Versions {
    Map::new(
        |key: (Seq<char>, u32)| exists|i: int| stored(dtos, key, i),
        |key: (Seq<char>, u32)| dtos[choose|i: int| stored(dtos, key, i)],
    )
}

proof fn lemma_stored(dtos: Seq<ChallengeDefinitionDto>, i: int)
    requires
        ordered(dtos),
        0 <= i < dtos.len(),
    ensures
        versions_of(dtos).contains_key((dtos[i].challenge.id@, dtos[i].meta.version)),
        versions_of(dtos)[(dtos[i].challenge.id@, dtos[i].meta.version)] == dtos[i],
{
    let key = (dtos[i].challenge.id@, dtos[i].meta.version);
    assert(stored(dtos, key, i));
    let j = choose|j: int| stored(dtos, key, j);
    assert(stored(dtos, key, j));
    lemma_text_less_irreflexive(key.0);
    if i < j {
        assert(key_less(dtos[i], dtos[j]));
    } else if j < i {
        assert(key_less(dtos[j], dtos[i]));
    }
}

/// Whether a position holds the latest version of its challenge.
spec fn ends_run(dtos: Seq<ChallengeDefinitionDto>, p: int) -> bool {
    0 <= p < dtos.len() && (p + 1 == dtos.len() || dtos[p + 1].challenge.id@ != dtos[p].challenge.id@)
}

proof fn lemma_run_end(dtos: Seq<ChallengeDefinitionDto>, p: int)
    requires
        ordered(dtos),
        ends_run(dtos, p),
    ensures
        is_latest(versions_of(dtos), dtos[p].challenge.id@, dtos[p].meta.version),
        latest(versions_of(dtos), dtos[p].challenge.id@) == dtos[p],
        is_known(versions_of(dtos), dtos[p].challenge.id@),
        forall|q: int|
            p < q < dtos.len() ==> text_less(dtos[p].challenge.id@, (#[trigger] dtos[q]).challenge.id@),
{
    let id = dtos[p].challenge.id@;
    let versions = versions_of(dtos);
    lemma_stored(dtos, p);
    assert forall|q: int| p < q < dtos.len() implies text_less(
        id,
        (#[trigger] dtos[q]).challenge.id@,
    ) by {
        assert(key_less(dtos[p], dtos[p + 1]));
        assert(text_less(id, dtos[p + 1].challenge.id@));
        if q > p + 1 {
            assert(key_less(dtos[p + 1], dtos[q]));
            if text_less(dtos[p + 1].challenge.id@, dtos[q].challenge.id@) {
                lemma_text_less_transitive(id, dtos[p + 1].challenge.id@, dtos[q].challenge.id@);
            }
        }
    }
    assert forall|other: u32| #[trigger] versions.contains_key((id, other)) implies other
        <= dtos[p].meta.version by {
        let q = choose|q: int| stored(dtos, (id, other), q);
        assert(stored(dtos, (id, other), q));
        lemma_text_less_irreflexive(id);
        if q > p {
            assert(text_less(id, dtos[q].challenge.id@));
        } else if q < p {
            assert(key_less(dtos[q], dtos[p]));
        }
    }
    assert(is_latest(versions, id, dtos[p].meta.version));
    law_latest_is_the_highest_version(versions, id, dtos[p].meta.version);
}

proof fn lemma_known_has_run_end(dtos: Seq<ChallengeDefinitionDto>, id: Seq<char>, from: int) -> (p: int)
    requires
        ordered(dtos),
        0 <= from < dtos.len(),
        dtos[from].challenge.id@ == id,
    ensures
        ends_run(dtos, p),
        dtos[p].challenge.id@ == id,
        from <= p,
    decreases dtos.len() - from,
{
    if ends_run(dtos, from) {
        from
    } else {
        lemma_known_has_run_end(dtos, id, from + 1)
    }
}

impl View for CatalogStore {
    type V = Versions;

    closed spec fn view(&self) -> Versions {
        versions_of(self.dtos@)
    }
}

impl CatalogStore {
    #[verifier::type_invariant]
    spec fn sorted(self) -> bool {
        ordered(self.dtos@)
    }

    /// An empty store.
    pub fn new() -> (r: CatalogStore)
        ensures
            r@ == Versions::empty(),
    {
        let r = CatalogStore { dtos: Vec::new() };
        assert(r@ =~= Versions::empty());
        r
    }

    /// Insert a version.
    ///
    /// Rewriting an existing version is refused: silently mutating a served
    /// version would move scores that have already been reported.
    pub fn insert(&mut self, dto: ChallengeDefinitionDto) -> (r: ServiceResult<()>)
        ensures
            ({
                let key = (dto.challenge.id@, dto.meta.version);
                if old(self)@.contains_key(key) {
                    &&& r is Err
                    &&& r->Err_0.is_internal("refusing to overwrite an existing challenge version"@)
                    &&& final(self)@ == old(self)@
                } else {
                    &&& r is Ok
                    &&& final(self)@ == old(self)@.insert(key, dto)
                }
            }),
    {
        proof {
            use_type_invariant(&*self);
        }
        let ghost before = self.dtos@;
        let ghost key = (dto.challenge.id@, dto.meta.version);
        let mut i: usize = 0;
        while i < self.dtos.len() && (less(self.dtos[i].challenge.id.as_str(), dto.challenge.id.as_str())
            || (same(self.dtos[i].challenge.id.as_str(), dto.challenge.id.as_str())
            && self.dtos[i].meta.version < dto.meta.version))
            invariant
                i <= self.dtos@.len(),
                forall|j: int| 0 <= j < i ==> key_less(#[trigger] self.dtos@[j], dto),
            decreases self.dtos.len() - i,
        {
            i += 1;
        }
        if i < self.dtos.len() && same(self.dtos[i].challenge.id.as_str(), dto.challenge.id.as_str())
            && self.dtos[i].meta.version == dto.meta.version {
            proof {
                lemma_stored(before, i as int);
            }
            return Err(ServiceError::Internal("refusing to overwrite an existing challenge version"));
        }
        proof {
            assert forall|j: int| i <= j < before.len() implies key_less(dto, #[trigger] before[j]) by {
                lemma_text_less_total(before[i as int].challenge.id@, dto.challenge.id@);
                assert(key_less(dto, before[i as int]));
                if i < j {
                    assert(key_less(before[i as int], before[j]));
                    if text_less(dto.challenge.id@, before[i as int].challenge.id@) && text_less(
                        before[i as int].challenge.id@,
                        before[j].challenge.id@,
                    ) {
                        lemma_text_less_transitive(
                            dto.challenge.id@,
                            before[i as int].challenge.id@,
                            before[j].challenge.id@,
                        );
                    }
                }
            }
            if versions_of(before).contains_key(key) {
                let j = choose|j: int| stored(before, key, j);
                assert(stored(before, key, j));
                lemma_text_less_irreflexive(key.0);
                if j < i {
                    assert(key_less(before[j], dto));
                } else {
                    assert(key_less(dto, before[j]));
                }
            }
        }
        let mut dtos: Vec<ChallengeDefinitionDto> = Vec::new();
        std::mem::swap(&mut dtos, &mut self.dtos);
        dtos.insert(i, dto);
        proof {
            let after = dtos@;
            assert(after == before.insert(i as int, dto));
            assert forall|a: int, b: int| 0 <= a < b < after.len() implies key_less(
                #[trigger] after[a],
                #[trigger] after[b],
            ) by {
                if a < i && b > i {
                    assert(key_less(before[a], before[b - 1]));
                } else if a > i {
                    assert(key_less(before[a - 1], before[b - 1]));
                }
            }
            assert(versions_of(after) =~= versions_of(before).insert(key, dto)) by {
                assert forall|k: (Seq<char>, u32)| versions_of(after).contains_key(k) <==> versions_of(
                    before,
                ).insert(key, dto).contains_key(k) by {
                    if versions_of(after).contains_key(k) {
                        let j = choose|j: int| stored(after, k, j);
                        assert(stored(after, k, j));
                        if j < i {
                            assert(stored(before, k, j));
                        } else if j > i {
                            assert(stored(before, k, j - 1));
                        }
                    }
                    if versions_of(before).contains_key(k) {
                        let j = choose|j: int| stored(before, k, j);
                        assert(stored(before, k, j));
                        if j < i {
                            assert(stored(after, k, j));
                        } else {
                            assert(stored(after, k, j + 1));
                        }
                    }
                    assert(stored(after, key, i as int));
                }
                assert forall|k: (Seq<char>, u32)| versions_of(after).contains_key(k) implies versions_of(
                    after,
                )[k] == versions_of(before).insert(key, dto)[k] by {
                    let j = choose|j: int| stored(after, k, j);
                    assert(stored(after, k, j));
                    lemma_stored(after, j);
                    if j < i {
                        lemma_stored(before, j);
                    } else if j > i {
                        lemma_stored(before, j - 1);
                    }
                }
            }
        }
        self.dtos = dtos;
        Ok(())
    }

    /// Store a challenge with fresh metadata.
    pub fn insert_challenge(
        &mut self,
        challenge: ChallengeDefinition,
        meta: ChallengeMeta,
    ) -> (r: ServiceResult<()>)
        ensures
            ({
                let key = (challenge.id@, meta.version);
                if old(self)@.contains_key(key) {
                    &&& r is Err
                    &&& r->Err_0.is_internal("refusing to overwrite an existing challenge version"@)
                    &&& final(self)@ == old(self)@
                } else {
                    &&& r is Ok
                    &&& final(self)@ == old(self)@.insert(
                        key,
                        (ChallengeDefinitionDto { challenge, meta }),
                    )
                }
            }),
    {
        self.insert(ChallengeDefinitionDto { challenge, meta })
    }

    /// Fetch a specific version, or the latest when `version` is absent.
    pub fn get(&self, challenge_id: &str, version: Option<u32>) -> (r: ServiceResult<
        &ChallengeDefinitionDto,
    >)
        ensures
            match r {
                Ok(dto) => match version {
                    Some(v) => self@.contains_key((challenge_id@, v)) && *dto == self@[(challenge_id@, v)],
                    None => is_known(self@, challenge_id@) && *dto == latest(self@, challenge_id@)
                        && is_latest(self@, challenge_id@, dto.meta.version) && *dto == self@[(
                        challenge_id@,
                        dto.meta.version,
                    )],
                },
                Err(error) => error.is_challenge_not_found(challenge_id@, version) && match version {
                    Some(v) => !self@.contains_key((challenge_id@, v)),
                    None => !is_known(self@, challenge_id@),
                },
            },
    {
        proof {
            use_type_invariant(self);
        }
        let mut i: usize = self.dtos.len();
        while i > 0
            invariant
                i <= self.dtos@.len(),
                ordered(self.dtos@),
                forall|j: int|
                    i <= j < self.dtos@.len() && (#[trigger] self.dtos@[j]).challenge.id@ == challenge_id@
                        ==> version is Some && version->0 != self.dtos@[j].meta.version,
            decreases i,
        {
            i -= 1;
            let dto = &self.dtos[i];
            if same(dto.challenge.id.as_str(), challenge_id) {
                let wanted = match version {
                    Some(v) => v == dto.meta.version,
                    None => true,
                };
                if wanted {
                    proof {
                        lemma_stored(self.dtos@, i as int);
                        if version is None {
                            assert(ends_run(self.dtos@, i as int));
                            lemma_run_end(self.dtos@, i as int);
                        }
                    }
                    return Ok(dto);
                }
            }
        }
        proof {
            assert forall|v: u32| self@.contains_key((challenge_id@, v)) implies version is Some && version->0
                != v by {
                let j = choose|j: int| stored(self.dtos@, (challenge_id@, v), j);
                assert(stored(self.dtos@, (challenge_id@, v), j));
            }
        }
        Err(ServiceError::ChallengeNotFound { challenge_id: challenge_id.to_owned(), version })
    }

    /// Whether a position holds the latest version of its challenge.
    fn is_run_end(&self, p: usize) -> (r: bool)
        requires
            p < self.dtos@.len(),
        ensures
            r == ends_run(self.dtos@, p as int),
    {
        p == self.dtos.len() - 1 || !same(
            self.dtos[p + 1].challenge.id.as_str(),
            self.dtos[p].challenge.id.as_str(),
        )
    }

    /// Number of stored versions across all challenges.
    pub fn len(&self) -> (r: usize)
        ensures
            r == self@.len(),
            self@.dom().finite(),
    {
        proof {
            use_type_invariant(self);
            let keys = Seq::new(
                self.dtos@.len(),
                |i: int| (self.dtos@[i].challenge.id@, self.dtos@[i].meta.version),
            );
            assert forall|i: int, j: int| 0 <= i < keys.len() && 0 <= j < keys.len() && i != j implies keys[i]
                != keys[j] by {
                lemma_text_less_irreflexive(self.dtos@[i].challenge.id@);
                if i < j {
                    assert(key_less(self.dtos@[i], self.dtos@[j]));
                } else {
                    assert(key_less(self.dtos@[j], self.dtos@[i]));
                }
            }
            keys.unique_seq_to_set();
            assert forall|k: (Seq<char>, u32)| self@.dom().contains(k) <==> keys.to_set().contains(k) by {
                if self@.dom().contains(k) {
                    let i = choose|i: int| stored(self.dtos@, k, i);
                    assert(stored(self.dtos@, k, i));
                    assert(keys[i] == k);
                }
                if keys.to_set().contains(k) {
                    let i = choose|i: int| 0 <= i < keys.len() && keys[i] == k;
                    assert(stored(self.dtos@, k, i));
                }
            }
            assert(self@.dom() =~= keys.to_set());
        }
        self.dtos.len()
    }

    /// Whether the store holds nothing.
    pub fn is_empty(&self) -> (r: bool)
        ensures
            r == (self@ == Versions::empty()),
    {
        let r = self.len() == 0;
        proof {
            if r {
                assert(self@.dom() =~= Set::empty());
                assert(self@ =~= Versions::empty());
            }
        }
        r
    }
}


/// Whether a position occurs in a list of positions.
spec fn occurs(positions: Seq<usize>, p: int) -> bool {
    exists|i: int| 0 <= i < positions.len() && #[trigger] positions[i] == p
}

impl CatalogStore {
    /// Identity of the challenge at a position.
    spec fn id_at(self, p: int) -> Seq<char> {
        self.dtos@[p].challenge.id@
    }

    /// Positions of the latest versions that are, or are not, generated, in
    /// order.
    fn run_ends(&self, generated: bool) -> (positions: Vec<usize>)
        ensures
            forall|i: int|
                0 <= i < positions@.len() ==> ends_run(self.dtos@, #[trigger] positions@[i] as int)
                    && self.dtos@[positions@[i] as int].meta.generator is Some == generated,
            forall|i: int, j: int|
                0 <= i < j < positions@.len() ==> #[trigger] positions@[i] < #[trigger] positions@[j],
            forall|p: int| #[trigger]
                ends_run(self.dtos@, p) && self.dtos@[p].meta.generator is Some == generated ==> occurs(
                    positions@,
                    p,
                ),
    {
        let mut positions: Vec<usize> = Vec::new();
        for p in 0..self.dtos.len()
            invariant
                forall|i: int|
                    0 <= i < positions@.len() ==> ends_run(self.dtos@, #[trigger] positions@[i] as int)
                        && self.dtos@[positions@[i] as int].meta.generator is Some == generated
                        && positions@[i] < p,
                forall|i: int, j: int|
                    0 <= i < j < positions@.len() ==> #[trigger] positions@[i] < #[trigger] positions@[j],
                forall|q: int| #[trigger]
                    ends_run(self.dtos@, q) && q < p && self.dtos@[q].meta.generator is Some == generated
                        ==> occurs(positions@, q),
        {
            let ghost before = positions@;
            let keep = self.is_run_end(p) && self.dtos[p].meta.generator.is_some() == generated;
            if keep {
                positions.push(p);
            }
            assert forall|q: int| #[trigger]
                ends_run(self.dtos@, q) && q < p + 1 && self.dtos@[q].meta.generator is Some
                    == generated implies occurs(positions@, q) by {
                if q < p {
                    assert(occurs(before, q));
                    let i = choose|i: int| 0 <= i < before.len() && #[trigger] before[i] == q;
                    assert(positions@[i] == q);
                } else {
                    assert(positions@[before.len() as int] == q);
                }
            }
        }
        positions
    }

    /// Positions of the latest versions, in menu order.
    fn menu_positions(&self) -> (positions: Vec<usize>)
        ensures
            forall|i: int|
                0 <= i < positions@.len() ==> ends_run(self.dtos@, #[trigger] positions@[i] as int),
            forall|i: int, j: int|
                0 <= i < j < positions@.len() ==> menu_before(
                    self@,
                    self.id_at(#[trigger] positions@[i] as int),
                    self.id_at(#[trigger] positions@[j] as int),
                ),
            forall|p: int| #[trigger] ends_run(self.dtos@, p) ==> occurs(positions@, p),
    {
        let mut positions = self.run_ends(false);
        let mut generated = self.run_ends(true);
        let ghost authored = positions@;
        let ghost made = generated@;
        positions.append(&mut generated);
        proof {
            use_type_invariant(self);
            let all = positions@;
            assert(all == authored + made);
            assert forall|i: int| 0 <= i < all.len() implies ends_run(
                self.dtos@,
                #[trigger] all[i] as int,
            ) by {
                if i < authored.len() {
                    assert(all[i] == authored[i]);
                } else {
                    assert(all[i] == made[i - authored.len()]);
                }
            }
            assert forall|i: int, j: int| 0 <= i < j < all.len() implies menu_before(
                self@,
                self.id_at(#[trigger] all[i] as int),
                self.id_at(#[trigger] all[j] as int),
            ) by {
                lemma_run_end(self.dtos@, all[i] as int);
                lemma_run_end(self.dtos@, all[j] as int);
                if j < authored.len() {
                    assert(all[i] == authored[i] && all[j] == authored[j]);
                } else if i < authored.len() {
                    assert(all[i] == authored[i] && all[j] == made[j - authored.len()]);
                } else {
                    assert(all[i] == made[i - authored.len()] && all[j] == made[j - authored.len()]);
                }
            }
            assert forall|p: int| #[trigger] ends_run(self.dtos@, p) implies occurs(all, p) by {
                if self.dtos@[p].meta.generator is Some {
                    assert(occurs(made, p));
                    let i = choose|i: int| 0 <= i < made.len() && #[trigger] made[i] == p;
                    assert(all[authored.len() + i] == p);
                } else {
                    assert(occurs(authored, p));
                    let i = choose|i: int| 0 <= i < authored.len() && #[trigger] authored[i] == p;
                    assert(all[i] == p);
                }
            }
        }
        positions
    }

    /// Where the latest version of a known challenge stands.
    proof fn lemma_known_position(self, id: Seq<char>) -> (p: int)
        requires
            ordered(self.dtos@),
            is_known(self@, id),
        ensures
            ends_run(self.dtos@, p),
            self.id_at(p) == id,
            latest(self@, id) == self.dtos@[p],
    {
        let version = choose|version: u32| self@.contains_key((id, version));
        let from = choose|i: int| stored(self.dtos@, (id, version), i);
        assert(stored(self.dtos@, (id, version), from));
        let p = lemma_known_has_run_end(self.dtos@, id, from);
        lemma_run_end(self.dtos@, p);
        p
    }

    /// Summaries of the latest version of every challenge.
    ///
    /// The order is part of the contract: hand-authored challenges lead, then
    /// generated ones, each group by identity. A client with no other signal
    /// opens the first entry.
    pub fn list(&self) -> (rows: Vec<ChallengeSummary>)
        ensures
            is_menu(rows@, self@),
    {
        let positions = self.menu_positions();
        let mut rows: Vec<ChallengeSummary> = Vec::new();
        proof {
            use_type_invariant(self);
        }
        for i in 0..positions.len()
            invariant
                ordered(self.dtos@),
                forall|j: int|
                    0 <= j < positions@.len() ==> ends_run(self.dtos@, #[trigger] positions@[j] as int),
                rows@.len() == i,
                forall|j: int|
                    0 <= j < i ==> (#[trigger] rows@[j]).id@ == self.id_at(positions@[j] as int)
                        && summarises(rows@[j], self@),
        {
            assert(ends_run(self.dtos@, positions@[i as int] as int));
            let challenge = &self.dtos[positions[i]].challenge;
            rows.push(
                ChallengeSummary {
                    id: challenge.id.clone(),
                    name: challenge.name.clone(),
                    description: challenge.description.clone(),
                },
            );
            proof {
                lemma_run_end(self.dtos@, positions@[i as int] as int);
            }
        }
        proof {
            assert forall|i: int, j: int| 0 <= i < j < rows@.len() implies menu_before(
                self@,
                (#[trigger] rows@[i]).id@,
                (#[trigger] rows@[j]).id@,
            ) by {
                assert(menu_before(
                    self@,
                    self.id_at(positions@[i] as int),
                    self.id_at(positions@[j] as int),
                ));
            }
            assert forall|id: Seq<char>| #[trigger] is_known(self@, id) implies exists|i: int|
                0 <= i < rows@.len() && (#[trigger] rows@[i]).id@ == id by {
                let p = self.lemma_known_position(id);
                assert(occurs(positions@, p));
                let i = choose|i: int| 0 <= i < positions@.len() && #[trigger] positions@[i] == p;
                assert(rows@[i].id@ == id);
            }
        }
        rows
    }

    /// Pick an item to run a competitive round on: the first on the menu that
    /// is not retired and can be played in `mode`.
    ///
    /// Provisional items are allowed, because a round ranks players against each
    /// other on an identical item.
    pub fn pick_for_match(&self, mode: ProgrammingMode) -> (r: ServiceResult<(String, u32)>)
        ensures
            match r {
                Ok((id, version)) => {
                    &&& playable(self@, id@, mode)
                    &&& is_latest(self@, id@, version)
                    &&& forall|other: Seq<char>| #[trigger]
                        playable(self@, other, mode) && other != id@ ==> menu_before(self@, id@, other)
                },
                Err(error) => error == ServiceError::BankExhausted && forall|id: Seq<char>|
                    !(#[trigger] playable(self@, id, mode)),
            },
    {
        let positions = self.menu_positions();
        proof {
            use_type_invariant(self);
        }
        for i in 0..positions.len()
            invariant
                ordered(self.dtos@),
                forall|j: int|
                    0 <= j < positions@.len() ==> ends_run(self.dtos@, #[trigger] positions@[j] as int),
                forall|a: int, b: int|
                    0 <= a < b < positions@.len() ==> menu_before(
                        self@,
                        self.id_at(#[trigger] positions@[a] as int),
                        self.id_at(#[trigger] positions@[b] as int),
                    ),
                forall|p: int| #[trigger] ends_run(self.dtos@, p) ==> occurs(positions@, p),
                forall|j: int|
                    0 <= j < i ==> !playable(self@, self.id_at(#[trigger] positions@[j] as int), mode),
        {
            assert(ends_run(self.dtos@, positions@[i as int] as int));
            let dto = &self.dtos[positions[i]];
            proof {
                lemma_run_end(self.dtos@, positions@[i as int] as int);
            }
            if dto.meta.calibration.servable() && dto.meta.supports(mode) {
                proof {
                    let id = self.id_at(positions@[i as int] as int);
                    assert forall|other: Seq<char>| #[trigger]
                        playable(self@, other, mode) && other != id implies menu_before(self@, id, other) by {
                        let p = self.lemma_known_position(other);
                        assert(occurs(positions@, p));
                        let j = choose|j: int| 0 <= j < positions@.len() && #[trigger] positions@[j] == p;
                        if j < i {
                            assert(!playable(self@, self.id_at(positions@[j] as int), mode));
                        } else {
                            assert(i < j);
                            assert(menu_before(
                                self@,
                                self.id_at(positions@[i as int] as int),
                                self.id_at(positions@[j] as int),
                            ));
                        }
                    }
                }
                return Ok((dto.challenge.id.clone(), dto.meta.version));
            }
        }
        proof {
            assert forall|id: Seq<char>| !(#[trigger] playable(self@, id, mode)) by {
                if playable(self@, id, mode) {
                    let p = self.lemma_known_position(id);
                    assert(occurs(positions@, p));
                    let j = choose|j: int| 0 <= j < positions@.len() && #[trigger] positions@[j] == p;
                    assert(!playable(self@, self.id_at(positions@[j] as int), mode));
                }
            }
        }
        Err(ServiceError::BankExhausted)
    }

    /// Build a bank snapshot over the latest version of every challenge that
    /// servo programs can play.
    pub fn snapshot(&self) -> (r: CatalogSnapshot)
        ensures
            is_pool(r@, self@, ProgrammingMode::Servo),
    {
        self.snapshot_for(ProgrammingMode::Servo)
    }

    /// Build a bank snapshot of the items playable in `mode`.
    ///
    /// Items are filtered here rather than at selection time: an item that
    /// cannot legally be served must not be in the pool being chosen from.
    pub fn snapshot_for(&self, mode: ProgrammingMode) -> (r: CatalogSnapshot)
        ensures
            is_pool(r@, self@, mode),
    {
        proof {
            use_type_invariant(self);
        }
        let mut items: Vec<BankItem> = Vec::new();
        let mut positions: Ghost<Seq<int>> = Ghost(Seq::empty());
        for p in 0..self.dtos.len()
            invariant
                ordered(self.dtos@),
                positions@.len() == items@.len(),
                forall|i: int|
                    0 <= i < positions@.len() ==> ends_run(self.dtos@, #[trigger] positions@[i])
                        && positions@[i] < p,
                forall|i: int, j: int|
                    0 <= i < j < positions@.len() ==> #[trigger] positions@[i] < #[trigger] positions@[j],
                forall|i: int|
                    0 <= i < items@.len() ==> (#[trigger] items@[i])@.id == self.id_at(positions@[i])
                        && items@[i]@.meta == self.dtos@[positions@[i]].meta@
                        && items@[i]@.meta.programming_modes.contains(mode),
                forall|q: int| #[trigger]
                    ends_run(self.dtos@, q) && q < p && self.dtos@[q].meta@.programming_modes.contains(
                        mode,
                    ) ==> positions@.contains(q),
        {
            let ghost before = positions@;
            let dto = &self.dtos[p];
            if self.is_run_end(p) && dto.meta.supports(mode) {
                items.push(BankItem::new(dto.challenge.id.clone(), dto.meta.clone()));
                proof {
                    positions@ = positions@.push(p as int);
                }
            }
            assert forall|q: int| #[trigger]
                ends_run(self.dtos@, q) && q < p + 1 && self.dtos@[q].meta@.programming_modes.contains(
                    mode,
                ) implies positions@.contains(q) by {
                if q < p {
                    let i = choose|i: int| 0 <= i < before.len() && before[i] == q;
                    assert(positions@[i] == q);
                } else {
                    assert(positions@[before.len() as int] == q);
                }
            }
        }
        proof {
            let pool = items_view(items@);
            assert forall|i: int| 0 <= i < pool.len() implies is_known(self@, (#[trigger] pool[i]).id)
                && pool[i].meta == latest(self@, pool[i].id).meta@
                && pool[i].meta.programming_modes.contains(mode) by {
                assert(items@[i]@ == pool[i]);
                assert(ends_run(self.dtos@, positions@[i]));
                lemma_run_end(self.dtos@, positions@[i]);
            }
            assert forall|i: int, j: int| 0 <= i < j < pool.len() implies text_less(
                (#[trigger] pool[i]).id,
                (#[trigger] pool[j]).id,
            ) by {
                assert(items@[i]@ == pool[i] && items@[j]@ == pool[j]);
                assert(positions@[i] < positions@[j]);
                assert(ends_run(self.dtos@, positions@[i]) && ends_run(self.dtos@, positions@[j]));
                lemma_run_end(self.dtos@, positions@[i]);
            }
            assert forall|id: Seq<char>| #[trigger]
                is_known(self@, id) && latest(self@, id).meta@.programming_modes.contains(
                    mode,
                ) implies exists|i: int| 0 <= i < pool.len() && (#[trigger] pool[i]).id == id by {
                let p = self.lemma_known_position(id);
                assert(positions@.contains(p));
                let i = choose|i: int| 0 <= i < positions@.len() && positions@[i] == p;
                assert(items@[i]@ == pool[i]);
            }
        }
        CatalogSnapshot::new(items)
    }
}

/// Writing a new version leaves every stored version as it was.
pub proof fn law_stored_versions_never_change(
    versions: Versions,
    dto: ChallengeDefinitionDto,
    key: (Seq<char>, u32),
)
    requires
        !versions.contains_key((dto.challenge.id@, dto.meta.version)),
        versions.contains_key(key),
    ensures
        versions.insert((dto.challenge.id@, dto.meta.version), dto).contains_key(key),
        versions.insert((dto.challenge.id@, dto.meta.version), dto)[key] == versions[key],
{
}

/// A version above every stored one of its challenge becomes the latest, and
/// the latest of every other challenge stays what it was.
pub proof fn law_a_higher_version_becomes_the_latest(
    versions: Versions,
    dto: ChallengeDefinitionDto,
    id: Seq<char>,
    version: u32,
)
    requires
        !versions.contains_key((dto.challenge.id@, dto.meta.version)),
        is_latest(versions, id, version),
    ensures
        ({
            let after = versions.insert((dto.challenge.id@, dto.meta.version), dto);
            if id == dto.challenge.id@ && version < dto.meta.version {
                is_latest(after, id, dto.meta.version) && latest(after, id) == dto
            } else {
                is_latest(after, id, version) && latest(after, id) == latest(versions, id)
            }
        }),
{
    let after = versions.insert((dto.challenge.id@, dto.meta.version), dto);
    law_latest_is_the_highest_version(versions, id, version);
    if id == dto.challenge.id@ && version < dto.meta.version {
        assert(is_latest(after, id, dto.meta.version));
        law_latest_is_the_highest_version(after, id, dto.meta.version);
    } else {
        assert(is_latest(after, id, version));
        law_latest_is_the_highest_version(after, id, version);
    }
}

/// Menu order is a strict total order on challenges, so a listing is
/// reproducible.
pub proof fn law_menu_order_is_strict_and_total(
    versions: Versions,
    a: Seq<char>,
    b: Seq<char>,
    c: Seq<char>,
)
    ensures
        !menu_before(versions, a, a),
        a != b ==> (menu_before(versions, a, b) <==> !menu_before(versions, b, a)),
        menu_before(versions, a, b) && menu_before(versions, b, c) ==> menu_before(versions, a, c),
{
    lemma_text_less_irreflexive(a);
    lemma_text_less_total(a, b);
    if text_less(a, b) {
        lemma_text_less_asymmetric(a, b);
    }
    if text_less(b, a) {
        lemma_text_less_asymmetric(b, a);
    }
    if text_less(a, b) && text_less(b, c) {
        lemma_text_less_transitive(a, b, c);
    }
}


/// On the menu a challenge made by hand stands before every generated one; two of the same making
/// stand in the order of their identities.
pub proof fn law_authored_challenges_lead_the_menu(versions: Versions, a: Seq<char>, b: Seq<char>)
    ensures
        latest(versions, a).meta.generator is None && latest(versions, b).meta.generator is Some
            ==> menu_before(versions, a, b) && !menu_before(versions, b, a),
        latest(versions, a).meta.generator is None && latest(versions, b).meta.generator is None ==> (
        menu_before(versions, a, b) <==> text_less(a, b)),
        latest(versions, a).meta.generator is Some && latest(versions, b).meta.generator is Some ==> (
        menu_before(versions, a, b) <==> text_less(a, b)),
{
}

/// What may be played in a mode: a challenge that is stored, whose latest version is written for the
/// mode and has not been retired. One that is retired is never played, in any mode.
pub proof fn law_what_may_be_played(
    versions: Versions,
    id: Seq<char>,
    version: u32,
    mode: ProgrammingMode,
)
    requires
        is_latest(versions, id, version),
    ensures
        playable(versions, id, mode) <==> !(versions[(id, version)].meta.calibration is Retired)
            && versions[(id, version)].meta@.programming_modes.contains(mode),
{
    law_latest_is_the_highest_version(versions, id, version);
}


/// The pool of a mode holds every challenge that is stored and whose latest version is written for
/// the mode, once, with its latest description, and nothing else.
pub proof fn law_the_pool_holds_every_challenge_of_the_mode(
    items: Seq<ItemView>,
    versions: Versions,
    mode: ProgrammingMode,
    id: Seq<char>,
    version: u32,
)
    requires
        is_pool(items, versions, mode),
        is_latest(versions, id, version),
    ensures
        (exists|i: int| 0 <= i < items.len() && (#[trigger] items[i]).id == id)
            <==> versions[(id, version)].meta@.programming_modes.contains(mode),
        forall|i: int|
            0 <= i < items.len() && (#[trigger] items[i]).id == id ==> items[i].meta == versions[(
                id,
                version,
            )].meta@,
{
    law_latest_is_the_highest_version(versions, id, version);
}

/// The menu shows every stored challenge with the name and description of its latest version.
pub proof fn law_the_menu_shows_every_challenge(
    rows: Seq<ChallengeSummary>,
    versions: Versions,
    id: Seq<char>,
    version: u32,
)
    requires
        is_menu(rows, versions),
        is_latest(versions, id, version),
    ensures
        exists|i: int| 0 <= i < rows.len() && (#[trigger] rows[i]).id@ == id,
        forall|i: int|
            0 <= i < rows.len() && (#[trigger] rows[i]).id@ == id ==> rows[i].name@ == versions[(
                id,
                version,
            )].challenge.name@ && rows[i].description@ == versions[(id, version)].challenge.description@,
{
    law_latest_is_the_highest_version(versions, id, version);
    assert(is_known(versions, id));
}

}
