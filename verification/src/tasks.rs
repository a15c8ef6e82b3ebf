//! Plain data carried by the domain-level calls built on top of the
//! generic Request primitives: tasking parameters, waypoint and skill
//! enumerations, and the static-object category.  These types only hold
//! values; the hosted scene gives them meaning.

use vstd::prelude::*;

verus! {

#[derive(Clone, Copy, Debug, PartialEq, Eq, Structural)]
pub enum TargetType {
    Ships,
    Helicopters,
    GroundUnits,
    LightArmedShips,
    Naval,
    Air,
}

#[derive(Clone, Debug)]
pub struct EngageTargetsParams {
    pub target_types: Vec<TargetType>,
    pub priority: usize,
}

#[derive(Clone, Copy, Debug, PartialEq, Eq, Structural)]
pub struct EngageGroupParams {
    pub group_id: usize,
    pub priority: usize,
    pub weapon_type: usize,
    pub visible: bool,
}

#[derive(Clone, Copy, Debug, PartialEq, Eq, Structural)]
pub struct AttackGroupParams {
    pub weapon_type: usize,
    pub group_id: usize,
}

#[derive(Clone, Debug)]
pub struct ScriptParams {
    pub command: String,
}

#[derive(Clone, Copy, Debug, PartialEq, Eq, Structural)]
pub struct EplrsParams {
    pub group_id: usize,
    pub value: bool,
}

#[derive(Clone, Copy, Debug, PartialEq, Eq, Structural)]
pub struct SetInvisibleParams {
    pub value: bool,
}

#[derive(Clone, Copy, Debug, PartialEq, Eq, Structural)]
pub enum ModeChannel {
    X,
    Y,
}

#[derive(Clone, Debug)]
pub struct ActivateBeaconParams {
    pub aa: bool,
    pub bearing: bool,
    pub callsign: String,
    pub channel: u16,
    pub frequency: u64,
    pub mode_channel: ModeChannel,
    pub system: u32,
    pub kind: u32,
    pub unit_id: Option<u64>,
}

#[derive(Clone, Copy, Debug, PartialEq, Eq, Structural)]
pub struct SetFrequencyParams {
    pub frequency: u64,
    pub modulation: u64,
    pub power: u64,
}

#[derive(Clone, Debug)]
pub struct FACAttackGroupParams {
    pub callname: u32,
    pub datalink: bool,
    pub designation: String,
    pub frequency: u64,
    pub group_id: u64,
    pub modulation: u64,
    pub number: u64,
    pub weapon_type: u64,
}

#[derive(Clone, Copy, Debug, PartialEq, Eq, Structural)]
pub enum OrbitKind {
    Circle,
    RaceTrack,
}

#[derive(Clone, Copy, Debug, PartialEq, Eq, Structural)]
pub enum EngageTargetsKind {
    AntiShip,
    CAS,
    CAP,
}

#[derive(Clone, Copy, Debug, PartialEq, Eq, Structural)]
pub enum Skill {
    Average,
    Client,
    Excellent,
    Good,
    High,
    Player,
}

impl Default for Skill {
    fn default() -> (r: Self)
        ensures
            r == Skill::Average,
    {
        Skill::Average
    }
}

#[derive(Clone, Copy, Debug, PartialEq, Eq, Structural)]
pub enum AltitudeType {
    Baro,
    Radio,
}

impl Default for AltitudeType {
    fn default() -> (r: Self)
        ensures
            r == AltitudeType::Baro,
    {
        AltitudeType::Baro
    }
}

#[derive(Clone, Copy, Debug, PartialEq, Eq, Structural)]
pub enum WaypointType {
    Land,
    TakeOff,
    TakeOffParking,
    TakeOffParkingHot,
    TakeOffGround,
    TurningPoint,
}

impl Default for WaypointType {
    fn default() -> (r: Self)
        ensures
            r == WaypointType::TurningPoint,
    {
        WaypointType::TurningPoint
    }
}

#[derive(Clone, Copy, Debug, PartialEq, Eq, Structural)]
pub enum WaypointAction {
    Land,
    TakeOff,
    TakeOffParking,
    TakeOffParkingHot,
    TakeOffGround,
    TurningPoint,
    FlyOverPoint,
    OffRoad,
}

impl Default for WaypointAction {
    fn default() -> (r: Self)
        ensures
            r == WaypointAction::TurningPoint,
    {
        WaypointAction::TurningPoint
    }
}

#[derive(Clone, Copy, Debug, PartialEq, Eq, Structural)]
pub enum TaskKind {
    Nothing,
    AFAC,
    AntiShipStrike,
    AWACS,
    CAP,
    CAS,
    Escort,
    FighterSweep,
    GroundAttack,
    Intercept,
    GroundNothing,
    Transport,
    Refueling,
}

impl Default for TaskKind {
    fn default() -> (r: Self)
        ensures
            r == TaskKind::Nothing,
    {
        TaskKind::Nothing
    }
}

#[derive(Clone, Copy, Debug, PartialEq, Eq, Structural)]
pub enum StaticCategory {
    Cargos,
}

impl Default for StaticCategory {
    fn default() -> (r: Self)
        ensures
            r == StaticCategory::Cargos,
    {
        StaticCategory::Cargos
    }
}

} // verus!
