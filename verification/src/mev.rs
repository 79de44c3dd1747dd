//! MEV protection policy: a stateless classifier over a protection
//! configuration.

use vstd::prelude::*;

verus! {

/// Priority fees above this are considered to attract unwanted attention.
pub const MAX_SAFE_PRIORITY_FEE: u64 = 10_000;

/// MEV protection configuration; pure input, no owned state.
#[derive(Clone, Copy, Debug, PartialEq, Eq, Structural)]
pub struct MEVProtection {
    pub enabled: bool,
    pub private_mempool: bool,
    pub sandwich_protection: bool,
    pub front_run_protection: bool,
    pub back_run_protection: bool,
    pub max_priority_fee: u64,
}

#[derive(Clone, Copy, Debug, PartialEq, Eq, Structural)]
pub enum ProtectionLevel {
    High,
    Medium,
    Low,
}

#[derive(Clone, Copy, Debug, PartialEq, Eq, Structural)]
pub enum MEVWarning {
    NoPrivateMempool,
    NoSandwichProtection,
    HighPriorityFee,
}

#[derive(Clone, Copy, Debug, PartialEq, Eq, Structural)]
pub enum MEVRecommendation {
    EnablePrivateMempool,
}

/// The policy's verdict on a configuration.
pub struct MEVAssessment {
    pub level: ProtectionLevel,
    pub warnings: Vec<MEVWarning>,
    pub recommendations: Vec<MEVRecommendation>,
}

/// High exactly when both the private mempool and sandwich protection are
/// up; medium when exactly one is; low otherwise, and always low when
/// protection is disabled.
pub open spec fn spec_protection_level(cfg: MEVProtection) -> ProtectionLevel {
    if !cfg.enabled {
        ProtectionLevel::Low
    } else if cfg.private_mempool && cfg.sandwich_protection {
        ProtectionLevel::High
    } else if cfg.private_mempool || cfg.sandwich_protection {
        ProtectionLevel::Medium
    } else {
        ProtectionLevel::Low
    }
}

/// The warnings owed to a configuration, in a fixed order; none when
/// protection is disabled. The priority-fee warning comes whatever the
/// level.
pub open spec fn spec_warnings(cfg: MEVProtection) -> Seq<MEVWarning> {
    if !cfg.enabled {
        Seq::empty()
    } else {
        (if !cfg.private_mempool {
            seq![MEVWarning::NoPrivateMempool]
        } else {
            Seq::empty()
        }) + (if !cfg.sandwich_protection {
            seq![MEVWarning::NoSandwichProtection]
        } else {
            Seq::empty()
        }) + (if cfg.max_priority_fee > MAX_SAFE_PRIORITY_FEE {
            seq![MEVWarning::HighPriorityFee]
        } else {
            Seq::empty()
        })
    }
}

pub open spec fn spec_recommendations(cfg: MEVProtection) -> Seq<MEVRecommendation> {
    if cfg.enabled && !cfg.private_mempool {
        seq![MEVRecommendation::EnablePrivateMempool]
    } else {
        Seq::empty()
    }
}

/// Scores a protection configuration: its level, its warnings and what to
/// change.
pub fn validate_mev_protection(cfg: &MEVProtection) -> (r: MEVAssessment)
    ensures
        r.level == spec_protection_level(*cfg),
        r.warnings@ == spec_warnings(*cfg),
        r.recommendations@ == spec_recommendations(*cfg),
{
    let mut warnings: Vec<MEVWarning> = Vec::new();
    let mut recommendations: Vec<MEVRecommendation> = Vec::new();
    if cfg.enabled {
        if !cfg.private_mempool {
            warnings.push(MEVWarning::NoPrivateMempool);
            recommendations.push(MEVRecommendation::EnablePrivateMempool);
        }
        if !cfg.sandwich_protection {
            warnings.push(MEVWarning::NoSandwichProtection);
        }
        if cfg.max_priority_fee > MAX_SAFE_PRIORITY_FEE {
            warnings.push(MEVWarning::HighPriorityFee);
        }
    }
    let level = if !cfg.enabled {
        ProtectionLevel::Low
    } else if cfg.private_mempool && cfg.sandwich_protection {
        ProtectionLevel::High
    } else if cfg.private_mempool || cfg.sandwich_protection {
        ProtectionLevel::Medium
    } else {
        ProtectionLevel::Low
    };
    proof {
        assert(warnings@ =~= spec_warnings(*cfg));
        assert(recommendations@ =~= spec_recommendations(*cfg));
    }
    MEVAssessment { level, warnings, recommendations }
}

/// With protection enabled, the level is high exactly when both shields are
/// up and medium exactly when one is; disabling protection forces a low
/// level and an empty warning list.
pub proof fn lemma_protection_level_classification(cfg: MEVProtection)
    ensures
        cfg.enabled ==> ((spec_protection_level(cfg) == ProtectionLevel::High) <==> (
        cfg.private_mempool && cfg.sandwich_protection)),
        cfg.enabled ==> ((spec_protection_level(cfg) == ProtectionLevel::Medium) <==> (
        cfg.private_mempool != cfg.sandwich_protection)),
        !cfg.enabled ==> spec_protection_level(cfg) == ProtectionLevel::Low && spec_warnings(cfg)
            == Seq::<MEVWarning>::empty(),
{
}

/// The display text of a protection level.
pub fn level_text(level: &ProtectionLevel) -> (r: String)
    ensures
        *level is High ==> r@ == "high"@,
        *level is Medium ==> r@ == "medium"@,
        *level is Low ==> r@ == "low"@,
{
    match level {
        ProtectionLevel::High => String::from_str("high"),
        ProtectionLevel::Medium => String::from_str("medium"),
        ProtectionLevel::Low => String::from_str("low"),
    }
}

/// The display text of a warning.
pub fn warning_text(w: &MEVWarning) -> (r: String)
    ensures
        *w is NoPrivateMempool ==> r@
            == "Private mempool not enabled - vulnerable to front-running"@,
        *w is NoSandwichProtection ==> r@ == "Sandwich protection disabled"@,
        *w is HighPriorityFee ==> r@ == "High priority fee may attract MEV bots"@,
{
    match w {
        MEVWarning::NoPrivateMempool => String::from_str(
            "Private mempool not enabled - vulnerable to front-running",
        ),
        MEVWarning::NoSandwichProtection => String::from_str("Sandwich protection disabled"),
        MEVWarning::HighPriorityFee => String::from_str("High priority fee may attract MEV bots"),
    }
}

/// The display text of a recommendation.
pub fn recommendation_text(rec: &MEVRecommendation) -> (r: String)
    ensures
        *rec is EnablePrivateMempool ==> r@
            == "Enable private_mempool for transaction privacy"@,
{
    match rec {
        MEVRecommendation::EnablePrivateMempool => String::from_str(
            "Enable private_mempool for transaction privacy",
        ),
    }
}

} // verus!
