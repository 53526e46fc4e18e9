//! The discount decision: the recovered amount against the configured
//! threshold, and the result handed back to the host.
//!
//! The shapes of a discount (its kind, its target, its conditions) are small
//! tagged types even though only one form is produced today, so that the
//! decision stage stays total and extensible.

use vstd::prelude::*;

use crate::amount::{val_gt, Amount};

verus! {

/// The kind and magnitude of a discount.
#[derive(Debug, Clone, PartialEq)]
pub enum DiscountValue {
    /// A percentage off, as an exact decimal.
    Percentage(Amount),
}

/// What a discount applies to.
#[derive(Debug, Clone, PartialEq)]
pub enum DiscountTarget {
    /// The whole order subtotal, less any excluded product variants.
    OrderSubtotal { excluded_variant_ids: Vec<String> },
}

/// A condition restricting a discount. The rule implemented today attaches
/// none.
#[derive(Debug, Clone, PartialEq)]
pub struct DiscountCondition {}

/// How the host combines eligible discounts.
#[derive(Debug, Clone, Copy, PartialEq, Eq, Structural)]
pub enum ApplicationStrategy {
    /// Apply only the first matching discount.
    First,
    /// Apply the single discount that gives the largest reduction.
    Maximum,
}

/// One discount offer: kind and magnitude, targets, message, conditions.
#[derive(Debug, Clone, PartialEq)]
pub struct DiscountDescriptor {
    pub value: DiscountValue,
    pub targets: Vec<DiscountTarget>,
    pub message: Option<String>,
    pub conditions: Vec<DiscountCondition>,
}

/// What one evaluation hands back to the host: zero or more discounts and
/// the strategy for applying them.
#[derive(Debug, Clone, PartialEq)]
pub struct RunResult {
    pub discounts: Vec<DiscountDescriptor>,
    pub discount_application_strategy: ApplicationStrategy,
}

/// The configured rule: the threshold the amount must exceed, the percentage
/// granted, and the message shown. Injected by the caller, never compiled
/// in.
#[derive(Debug, Clone, PartialEq)]
pub struct DiscountRule {
    pub threshold: Amount,
    pub percentage: Amount,
    pub message: String,
}

/// The one discount the rule emits: the configured percentage off the order
/// subtotal with no exclusions, the configured message, and no conditions.
pub open spec fn descriptor_matches(d: DiscountDescriptor, rule: DiscountRule) -> bool {
    &&& (d.value matches DiscountValue::Percentage(p) && p@ == rule.percentage@)
    &&& d.targets@.len() == 1
    &&& (d.targets@[0] matches DiscountTarget::OrderSubtotal { excluded_variant_ids }
        && excluded_variant_ids@.len() == 0)
    &&& (d.message matches Some(m) && m@ == rule.message@)
    &&& d.conditions@.len() == 0
}

/// The threshold decision. Emits exactly one discount when an amount was
/// recovered and exceeds the threshold, and none otherwise; it cannot fail.
pub fn decide(amount: Option<&Amount>, rule: &DiscountRule) -> (r: RunResult)
    requires
        rule.threshold@.wf(),
        amount matches Some(a) ==> a@.wf(),
    ensures
        r.discount_application_strategy == ApplicationStrategy::First,
        match amount {
            None => r.discounts@.len() == 0,
            Some(a) => if val_gt(a@, rule.threshold@) {
                r.discounts@.len() == 1 && descriptor_matches(r.discounts@[0], *rule)
            } else {
                r.discounts@.len() == 0
            },
        },
{
    let mut discounts: Vec<DiscountDescriptor> = Vec::new();
    if let Some(a) = amount {
        if a.gt(&rule.threshold) {
            let mut targets: Vec<DiscountTarget> = Vec::new();
            targets.push(DiscountTarget::OrderSubtotal { excluded_variant_ids: Vec::new() });
            let d = DiscountDescriptor {
                value: DiscountValue::Percentage(rule.percentage.duplicate()),
                targets,
                message: Some(rule.message.clone()),
                conditions: Vec::new(),
            };
            discounts.push(d);
        }
    }
    RunResult { discounts, discount_application_strategy: ApplicationStrategy::First }
}

} // verus!
