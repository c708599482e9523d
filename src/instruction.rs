//! The instructions a planner issues for one step, and why a batch of them
//! can be refused.
use crate::plan::Vertex;
use vstd::prelude::*;

verus! {

/// Move robot `robot_id` to `vertex`.
#[derive(Copy, Clone, Debug, PartialEq, Eq, Structural)]
pub struct MoveInstruction {
    pub robot_id: usize,
    pub vertex: Vertex,
}

/// Pick up (placement) or drop off (removal) parcel `parcel` by robot
/// `robot_id` at `vertex`.
#[derive(Copy, Clone, Debug, PartialEq, Eq, Structural)]
pub struct ParcelInstruction {
    pub robot_id: usize,
    pub parcel: usize,
    pub vertex: Vertex,
}

pub type PlacementInstruction = ParcelInstruction;

pub type RemovalInstruction = ParcelInstruction;

/// Take robot `robot_id`, standing at `vertex`, off the floor.
#[derive(Copy, Clone, Debug, PartialEq, Eq, Structural)]
pub struct RobotRemovalInstruction {
    pub robot_id: usize,
    pub vertex: Vertex,
}

/// One step's instructions, applied in this order: moves, placements,
/// parcel removals, robot removals.
pub struct Instructions {
    pub movements: Vec<MoveInstruction>,
    pub placements: Vec<PlacementInstruction>,
    pub removals: Vec<RemovalInstruction>,
    pub robot_removals: Vec<RobotRemovalInstruction>,
}

impl Instructions {
    /// A batch with no instruction.
    pub fn empty() -> (r: Instructions)
        ensures
            r.movements@.len() == 0,
            r.placements@.len() == 0,
            r.removals@.len() == 0,
            r.robot_removals@.len() == 0,
    {
        Instructions { movements: Vec::new(), placements: Vec::new(), removals: Vec::new(), robot_removals: Vec::new() }
    }
}

/// Any single instruction.
#[derive(Copy, Clone, Debug, PartialEq, Eq, Structural)]
pub enum Instruction {
    Move(MoveInstruction),
    Place(PlacementInstruction),
    Remove(RemovalInstruction),
    RemoveRobot(RobotRemovalInstruction),
}

/// What every refusal reports: the instruction, a reason and the step.
pub trait IllegalInstructionError {
    spec fn spec_instruction(&self) -> Instruction;

    spec fn spec_time(&self) -> usize;

    spec fn spec_message(&self) -> String;

    fn instruction(&self) -> (r: Instruction)
        ensures
            r == self.spec_instruction(),
    ;

    fn message(&self) -> (r: &String)
        ensures
            *r == self.spec_message(),
    ;

    fn time(&self) -> (r: usize)
        ensures
            r == self.spec_time(),
    ;
}

/// A refused move.
#[derive(Debug)]
pub struct IllegalMoveError {
    pub instruction: MoveInstruction,
    pub message: String,
    pub time: usize,
}

impl IllegalMoveError {
    pub fn from(instruction: MoveInstruction, message: String, time: usize) -> (r: IllegalMoveError)
        ensures
            r.instruction == instruction,
            r.message == message,
            r.time == time,
    {
        IllegalMoveError { instruction, message, time }
    }
}

impl IllegalInstructionError for IllegalMoveError {
    open spec fn spec_instruction(&self) -> Instruction {
        Instruction::Move(self.instruction)
    }

    open spec fn spec_time(&self) -> usize {
        self.time
    }

    open spec fn spec_message(&self) -> String {
        self.message
    }

    fn instruction(&self) -> (r: Instruction) {
        Instruction::Move(self.instruction)
    }

    fn message(&self) -> (r: &String) {
        &self.message
    }

    fn time(&self) -> (r: usize) {
        self.time
    }
}

/// A refused placement.
#[derive(Debug)]
pub struct IllegalPlacementError {
    pub instruction: PlacementInstruction,
    pub message: String,
    pub time: usize,
}

impl IllegalPlacementError {
    pub fn from(instruction: PlacementInstruction, message: String, time: usize) -> (r: IllegalPlacementError)
        ensures
            r.instruction == instruction,
            r.message == message,
            r.time == time,
    {
        IllegalPlacementError { instruction, message, time }
    }
}

impl IllegalInstructionError for IllegalPlacementError {
    open spec fn spec_instruction(&self) -> Instruction {
        Instruction::Place(self.instruction)
    }

    open spec fn spec_time(&self) -> usize {
        self.time
    }

    open spec fn spec_message(&self) -> String {
        self.message
    }

    fn instruction(&self) -> (r: Instruction) {
        Instruction::Place(self.instruction)
    }

    fn message(&self) -> (r: &String) {
        &self.message
    }

    fn time(&self) -> (r: usize) {
        self.time
    }
}

/// A refused parcel removal.
#[derive(Debug)]
pub struct IllegalRemovalError {
    pub instruction: RemovalInstruction,
    pub message: String,
    pub time: usize,
}

impl IllegalRemovalError {
    pub fn from(instruction: RemovalInstruction, message: String, time: usize) -> (r: IllegalRemovalError)
        ensures
            r.instruction == instruction,
            r.message == message,
            r.time == time,
    {
        IllegalRemovalError { instruction, message, time }
    }
}

impl IllegalInstructionError for IllegalRemovalError {
    open spec fn spec_instruction(&self) -> Instruction {
        Instruction::Remove(self.instruction)
    }

    open spec fn spec_time(&self) -> usize {
        self.time
    }

    open spec fn spec_message(&self) -> String {
        self.message
    }

    fn instruction(&self) -> (r: Instruction) {
        Instruction::Remove(self.instruction)
    }

    fn message(&self) -> (r: &String) {
        &self.message
    }

    fn time(&self) -> (r: usize) {
        self.time
    }
}

/// A refused robot removal.
#[derive(Debug)]
pub struct IllegalRobotRemovalError {
    pub instruction: RobotRemovalInstruction,
    pub message: String,
    pub time: usize,
}

impl IllegalRobotRemovalError {
    pub fn from(instruction: RobotRemovalInstruction, message: String, time: usize) -> (r: IllegalRobotRemovalError)
        ensures
            r.instruction == instruction,
            r.message == message,
            r.time == time,
    {
        IllegalRobotRemovalError { instruction, message, time }
    }
}

impl IllegalInstructionError for IllegalRobotRemovalError {
    open spec fn spec_instruction(&self) -> Instruction {
        Instruction::RemoveRobot(self.instruction)
    }

    open spec fn spec_time(&self) -> usize {
        self.time
    }

    open spec fn spec_message(&self) -> String {
        self.message
    }

    fn instruction(&self) -> (r: Instruction) {
        Instruction::RemoveRobot(self.instruction)
    }

    fn message(&self) -> (r: &String) {
        &self.message
    }

    fn time(&self) -> (r: usize) {
        self.time
    }
}

/// The refusal of a batch, by kind of instruction.
#[derive(Debug)]
pub enum IllegalInstruction {
    Move(IllegalMoveError),
    Placement(IllegalPlacementError),
    Removal(IllegalRemovalError),
    RobotRemoval(IllegalRobotRemovalError),
}

impl IllegalInstruction {
    pub open spec fn spec_instruction(&self) -> Instruction {
        match self {
            IllegalInstruction::Move(e) => e.spec_instruction(),
            IllegalInstruction::Placement(e) => e.spec_instruction(),
            IllegalInstruction::Removal(e) => e.spec_instruction(),
            IllegalInstruction::RobotRemoval(e) => e.spec_instruction(),
        }
    }

    pub open spec fn spec_time(&self) -> usize {
        match self {
            IllegalInstruction::Move(e) => e.time,
            IllegalInstruction::Placement(e) => e.time,
            IllegalInstruction::Removal(e) => e.time,
            IllegalInstruction::RobotRemoval(e) => e.time,
        }
    }

    /// The refused instruction.
    pub fn instruction(&self) -> (r: Instruction)
        ensures
            r == self.spec_instruction(),
    {
        match self {
            IllegalInstruction::Move(e) => e.instruction(),
            IllegalInstruction::Placement(e) => e.instruction(),
            IllegalInstruction::Removal(e) => e.instruction(),
            IllegalInstruction::RobotRemoval(e) => e.instruction(),
        }
    }

    pub open spec fn spec_message(&self) -> String {
        match self {
            IllegalInstruction::Move(e) => e.message,
            IllegalInstruction::Placement(e) => e.message,
            IllegalInstruction::Removal(e) => e.message,
            IllegalInstruction::RobotRemoval(e) => e.message,
        }
    }

    /// Why it was refused.
    pub fn message(&self) -> (r: &String)
        ensures
            *r == self.spec_message(),
    {
        match self {
            IllegalInstruction::Move(e) => &e.message,
            IllegalInstruction::Placement(e) => &e.message,
            IllegalInstruction::Removal(e) => &e.message,
            IllegalInstruction::RobotRemoval(e) => &e.message,
        }
    }

    /// The step at which it was refused.
    pub fn time(&self) -> (r: usize)
        ensures
            r == self.spec_time(),
    {
        match self {
            IllegalInstruction::Move(e) => e.time,
            IllegalInstruction::Placement(e) => e.time,
            IllegalInstruction::Removal(e) => e.time,
            IllegalInstruction::RobotRemoval(e) => e.time,
        }
    }
}

} // verus!
