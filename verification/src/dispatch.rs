//! Instruction decoding: the delegation program's undelegation callback,
//! then a one-byte discriminator.

use vstd::prelude::*;
use crate::instruction::{
    INIT_MODEL, INIT_WEIGHTS, LOAD_DOCS, DELEGATE, TRAIN_STEP, TRAIN_MICRO, SCHEDULE_TRAINING, CHECKPOINT,
    UNDELEGATE, GENERATE, CONTRIBUTE, GROW, DELEGATE_PREP, INIT_SHARDS,
};
use crate::program::ProgramError;

verus! {

/// The instructions the program handles.
#[derive(Debug, Clone, Copy, PartialEq, Eq, Structural)]
pub enum Instruction {
    UndelegateCallback,
    InitModel,
    InitWeights,
    LoadDocs,
    Delegate,
    TrainStep,
    TrainMicro,
    ScheduleTraining,
    Checkpoint,
    Undelegate,
    Generate,
    Contribute,
    Grow,
    DelegatePrep,
    InitShards,
}

/// The delegation program's discriminator of the undelegation callback.
pub open spec fn undelegate_tag() -> Seq<u8> {
    seq![196u8, 28u8, 41u8, 206u8, 48u8, 37u8, 51u8, 167u8]
}

/// `ephemeral_rollups_pinocchio::consts::EXTERNAL_UNDELEGATE_DISCRIMINATOR`:
/// the eight bytes the delegation program prefixes its undelegation
/// callback with, as that crate defines them.
#[verifier::external_body]
fn undelegate_discriminator() -> (d: [u8; 8])
    ensures
        d@ == undelegate_tag(),
{
    ephemeral_rollups_pinocchio::consts::EXTERNAL_UNDELEGATE_DISCRIMINATOR
}

/// Instruction with one-byte discriminator `tag`.
pub open spec fn instruction_of(tag: u8) -> Option<Instruction> {
    if tag == INIT_MODEL {
        Some(Instruction::InitModel)
    } else if tag == INIT_WEIGHTS {
        Some(Instruction::InitWeights)
    } else if tag == LOAD_DOCS {
        Some(Instruction::LoadDocs)
    } else if tag == DELEGATE {
        Some(Instruction::Delegate)
    } else if tag == TRAIN_STEP {
        Some(Instruction::TrainStep)
    } else if tag == TRAIN_MICRO {
        Some(Instruction::TrainMicro)
    } else if tag == SCHEDULE_TRAINING {
        Some(Instruction::ScheduleTraining)
    } else if tag == CHECKPOINT {
        Some(Instruction::Checkpoint)
    } else if tag == UNDELEGATE {
        Some(Instruction::Undelegate)
    } else if tag == GENERATE {
        Some(Instruction::Generate)
    } else if tag == CONTRIBUTE {
        Some(Instruction::Contribute)
    } else if tag == GROW {
        Some(Instruction::Grow)
    } else if tag == DELEGATE_PREP {
        Some(Instruction::DelegatePrep)
    } else if tag == INIT_SHARDS {
        Some(Instruction::InitShards)
    } else {
        None
    }
}

/// Decode instruction data into the instruction and its arguments: the
/// undelegation callback when the data starts with its eight-byte
/// discriminator, else the instruction named by the first byte;
/// InvalidInstructionData for empty data or an unknown discriminator.
pub fn decode_instruction(data: &[u8]) -> (r: Result<(Instruction, &[u8]), ProgramError>)
    ensures
        data@.len() >= 8 && data@.subrange(0, 8) == undelegate_tag() ==> (r matches Ok((i, rest))
            && i == Instruction::UndelegateCallback && rest@ == data@.subrange(8, data@.len() as int)),
        !(data@.len() >= 8 && data@.subrange(0, 8) == undelegate_tag()) ==> (
            if data@.len() == 0 {
                r == Err::<(Instruction, &[u8]), ProgramError>(ProgramError::InvalidInstructionData)
            } else {
                match instruction_of(data@[0]) {
                    Some(ins) => r matches Ok((i, rest)) && i == ins && rest@ == data@.subrange(1, data@.len() as int),
                    None => r == Err::<(Instruction, &[u8]), ProgramError>(ProgramError::InvalidInstructionData),
                }
            }),
{
    let tag = undelegate_discriminator();
    if data.len() >= 8 {
        let mut same = true;
        let mut i: usize = 0;
        while i < 8
            invariant
                i <= 8,
                data@.len() >= 8,
                tag@ == undelegate_tag(),
                same == (forall|j: int| 0 <= j < i ==> data@[j] == tag@[j]),
            decreases 8 - i,
        {
            same = same && data[i] == tag[i];
            i = i + 1;
        }
        if same {
            assert(data@.subrange(0, 8) =~= undelegate_tag());
            return Ok((Instruction::UndelegateCallback, &data[8..data.len()]));
        }
        assert(data@.subrange(0, 8) != undelegate_tag()) by {
            let j = choose|j: int| 0 <= j < 8 && data@[j] != tag@[j];
            assert(data@.subrange(0, 8)[j] != undelegate_tag()[j]);
        }
    }
    if data.len() == 0 {
        return Err(ProgramError::InvalidInstructionData);
    }
    let rest = &data[1..data.len()];
    let d = data[0];
    let ins = if d == INIT_MODEL {
        Instruction::InitModel
    } else if d == INIT_WEIGHTS {
        Instruction::InitWeights
    } else if d == LOAD_DOCS {
        Instruction::LoadDocs
    } else if d == DELEGATE {
        Instruction::Delegate
    } else if d == TRAIN_STEP {
        Instruction::TrainStep
    } else if d == TRAIN_MICRO {
        Instruction::TrainMicro
    } else if d == SCHEDULE_TRAINING {
        Instruction::ScheduleTraining
    } else if d == CHECKPOINT {
        Instruction::Checkpoint
    } else if d == UNDELEGATE {
        Instruction::Undelegate
    } else if d == GENERATE {
        Instruction::Generate
    } else if d == CONTRIBUTE {
        Instruction::Contribute
    } else if d == GROW {
        Instruction::Grow
    } else if d == DELEGATE_PREP {
        Instruction::DelegatePrep
    } else if d == INIT_SHARDS {
        Instruction::InitShards
    } else {
        return Err(ProgramError::InvalidInstructionData);
    };
    Ok((ins, rest))
}

} // verus!
