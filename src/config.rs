use vstd::prelude::*;
use crate::log::ReplacementLog;
use crate::selector::{prefix_weight, weights_normalized, ConfigError, WeightedSelector};
use crate::text::chars_of;

verus! {

/// A validated configuration: the pattern, the rules (if any were given) and
/// a log with every rule at zero.
#[derive(Debug, Clone)]
pub struct ReplaceConfig {
    pub pattern: Vec<char>,
    pub selector: Option<WeightedSelector>,
    pub log: ReplacementLog,
}

impl ReplaceConfig {
    /// The pattern is non-empty, and the log has one entry per rule.
    pub open spec fn wf(&self) -> bool {
        &&& self.pattern@.len() > 0
        &&& self.log.wf()
        &&& match self.selector {
            Some(s) => s.wf() && self.log.fits(&s),
            None => self.log.texts@.len() == 0,
        }
    }
}

/// Checks a configuration record: the pattern must be given and non-empty,
/// and rules, where given, must have weights that are normalized.
pub fn build_rep_conf(pat: Option<String>, to: Option<Vec<(String, u8)>>) -> (r: Result<ReplaceConfig, ConfigError>)
    ensures
        pat is None ==> r == Err::<ReplaceConfig, ConfigError>(ConfigError::MissingPattern),
        pat is Some && pat->0@.len() == 0 ==> r == Err::<ReplaceConfig, ConfigError>(ConfigError::EmptyPattern),
        pat is Some && pat->0@.len() > 0 && to is Some && !weights_normalized(to->0@) ==> r == Err::<
            ReplaceConfig,
            ConfigError,
        >(ConfigError::WeightsNotNormalized),
        r is Ok <==> (pat is Some && pat->0@.len() > 0 && (to is None || weights_normalized(to->0@))),
        r matches Ok(c) ==> (c.pattern@ == pat->0@ && c.wf() && c.log.total == 0 && (to is None
            <==> c.selector is None)),
        r matches Ok(c) ==> (c.selector matches Some(s) ==> (s.ranges@.len() == to->0@.len() && forall|i: int|
            0 <= i < s.ranges@.len() ==> {
                &&& (#[trigger] s.ranges@[i]).text@ == to->0@[i].0@
                &&& s.ranges@[i].low == 1 + prefix_weight(to->0@, i)
                &&& s.ranges@[i].high == prefix_weight(to->0@, i + 1)
                &&& c.log.counts@[i] == 0
            })),
{
    let p = match pat {
        Some(p) => p,
        None => return Err(ConfigError::MissingPattern),
    };
    let pattern = chars_of(&p);
    if pattern.len() == 0 {
        return Err(ConfigError::EmptyPattern);
    }
    match to {
        None => Ok(ReplaceConfig { pattern, selector: None, log: ReplacementLog::empty() }),
        Some(rules) => {
            let s = WeightedSelector::new(&rules)?;
            let log = ReplacementLog::zeroed(&rules);
            assert forall|i: int| 0 <= i < s.ranges@.len() implies log.counts@[i] == 0 by {
                assert(log.texts@[i]@ == rules@[i].0@);
            }
            Ok(ReplaceConfig { pattern, selector: Some(s), log })
        },
    }
}

} // verus!
