//! Numbers are held as bit patterns: each constant is the pattern of the
//! number that its name or its documentation gives.

#[test]
fn constants_are_the_patterns_they_say() {
    let table: Vec<(&str, u32, f32)> = vec![
        ("ambi::THREE", omg_audio::ambi::THREE, 3.0),
        ("ambi::TWO", omg_audio::ambi::TWO, 2.0),
        ("ambi::ONE_AND_HALF", omg_audio::ambi::ONE_AND_HALF, 1.5),
        ("ambi::MIC_DEGREES", omg_audio::ambi::MIC_DEGREES, 60.0),
        ("ambience::ROUTE_LEVEL", omg_audio::ambience::ROUTE_LEVEL, 0.047),
        ("ambience::FAINT", omg_audio::ambience::FAINT, 1e-7),
        ("ambience::FADER_TAU", omg_audio::ambience::FADER_TAU, 0.02),
        ("ambience::ROUTE_TAU", omg_audio::ambience::ROUTE_TAU, 0.25),
        ("ambience::SEEP_TAU", omg_audio::ambience::SEEP_TAU, 0.4),
        ("ambience::FADER_TOP", omg_audio::ambience::FADER_TOP, 8.0),
        ("ambience::MINUS_ONE", omg_audio::ambience::MINUS_ONE, -1.0),
        ("bands::XOVER_LO_HZ", omg_audio::bands::XOVER_LO_HZ, 314.0),
        ("bands::XOVER_HI_HZ", omg_audio::bands::XOVER_HI_HZ, 2100.0),
        ("bvh::NARROW", omg_audio::bvh::NARROW, 1e-6),
        ("bvh::NEAR_END", omg_audio::bvh::NEAR_END, 1e-4),
        ("diffraction::CLEAR", omg_audio::diffraction::CLEAR, -0.1916),
        ("diffraction::TINY", omg_audio::diffraction::TINY, 0.001),
        ("diffraction::GRAZING_DB", omg_audio::diffraction::GRAZING_DB, 5.0),
        ("diffraction::TWENTY", omg_audio::diffraction::TWENTY, 20.0),
        ("diffraction::TEN", omg_audio::diffraction::TEN, 10.0),
        ("diffraction::SPEED_OF_SOUND", omg_audio::diffraction::SPEED_OF_SOUND, 343.0),
        ("diffraction::CENTER_LOW", omg_audio::diffraction::CENTER_LOW, 125.0),
        ("diffraction::CENTER_MID", omg_audio::diffraction::CENTER_MID, 790.0),
        ("diffraction::CENTER_HIGH", omg_audio::diffraction::CENTER_HIGH, 5600.0),
        ("drops::P_1E_MINUS_6", omg_audio::drops::P_1E_MINUS_6, 1e-6),
        ("drops::P_1E_MINUS_3", omg_audio::drops::P_1E_MINUS_3, 1e-3),
        ("drops::P_0_004", omg_audio::drops::P_0_004, 0.004),
        ("drops::P_0_006", omg_audio::drops::P_0_006, 0.006),
        ("drops::P_0_008", omg_audio::drops::P_0_008, 0.008),
        ("drops::P_0_010", omg_audio::drops::P_0_010, 0.010),
        ("drops::P_0_011", omg_audio::drops::P_0_011, 0.011),
        ("drops::P_0_018", omg_audio::drops::P_0_018, 0.018),
        ("drops::P_0_026", omg_audio::drops::P_0_026, 0.026),
        ("drops::P_0_030", omg_audio::drops::P_0_030, 0.030),
        ("drops::P_0_050", omg_audio::drops::P_0_050, 0.050),
        ("drops::P_0_06", omg_audio::drops::P_0_06, 0.06),
        ("drops::P_0_080", omg_audio::drops::P_0_080, 0.080),
        ("drops::P_0_090", omg_audio::drops::P_0_090, 0.090),
        ("drops::P_0_120", omg_audio::drops::P_0_120, 0.120),
        ("drops::P_0_25", omg_audio::drops::P_0_25, 0.25),
        ("drops::P_0_4", omg_audio::drops::P_0_4, 0.4),
        ("drops::P_0_5", omg_audio::drops::P_0_5, 0.5),
        ("drops::P_0_55", omg_audio::drops::P_0_55, 0.55),
        ("drops::P_0_7", omg_audio::drops::P_0_7, 0.7),
        ("drops::P_0_8", omg_audio::drops::P_0_8, 0.8),
        ("drops::P_0_9", omg_audio::drops::P_0_9, 0.9),
        ("drops::P_0_97", omg_audio::drops::P_0_97, 0.97),
        ("drops::P_0_982", omg_audio::drops::P_0_982, 0.982),
        ("drops::P_1_0", omg_audio::drops::P_1_0, 1.0),
        ("drops::P_2_0", omg_audio::drops::P_2_0, 2.0),
        ("drops::P_380_0", omg_audio::drops::P_380_0, 380.0),
        ("drops::P_650_0", omg_audio::drops::P_650_0, 650.0),
        ("drops::P_820_0", omg_audio::drops::P_820_0, 820.0),
        ("drops::P_900_0", omg_audio::drops::P_900_0, 900.0),
        ("drops::P_1200_0", omg_audio::drops::P_1200_0, 1200.0),
        ("drops::P_1550_0", omg_audio::drops::P_1550_0, 1550.0),
        ("drops::P_1750_0", omg_audio::drops::P_1750_0, 1750.0),
        ("drops::P_2200_0", omg_audio::drops::P_2200_0, 2200.0),
        ("drops::P_2400_0", omg_audio::drops::P_2400_0, 2400.0),
        ("drops::P_3050_0", omg_audio::drops::P_3050_0, 3050.0),
        ("drops::P_3200_0", omg_audio::drops::P_3200_0, 3200.0),
        ("drops::P_3600_0", omg_audio::drops::P_3600_0, 3600.0),
        ("drops::P_4700_0", omg_audio::drops::P_4700_0, 4700.0),
        ("drops::P_5400_0", omg_audio::drops::P_5400_0, 5400.0),
        ("env::SILENT", omg_audio::env::SILENT, 1e-5),
        ("fdn::MILLI", omg_audio::fdn::MILLI, 1e-3),
        ("fdn::GAIN_0", omg_audio::fdn::GAIN_0, 0.7),
        ("fdn::GAIN_TAU", omg_audio::fdn::GAIN_TAU, 0.1),
        ("fdn::DAMP_TAU", omg_audio::fdn::DAMP_TAU, 0.15),
        ("fdn::MINUS_THREE", omg_audio::fdn::MINUS_THREE, -3.0),
        ("fdn::TEN", omg_audio::fdn::TEN, 10.0),
        ("fdn::LEAST", omg_audio::fdn::LEAST, 0.05),
        ("fdn::MOST", omg_audio::fdn::MOST, 0.9999),
        ("fdn::EVEN", omg_audio::fdn::EVEN, 0.999),
        ("fdn::OPEN_HZ", omg_audio::fdn::OPEN_HZ, 20000.0),
        ("fdn::DAMP_HZ", omg_audio::fdn::DAMP_HZ, 6000.0),
        ("fdn::DULL_HZ", omg_audio::fdn::DULL_HZ, 500.0),
        ("fdn::FEED", omg_audio::fdn::FEED, 0.35),
        ("fdn::EIGHT", omg_audio::fdn::EIGHT, 8.0),
        ("geom::TWO", omg_audio::geom::TWO, 2.0),
        ("hrtf::FIVE", omg_audio::hrtf::FIVE, 5.0),
        ("hrtf::MAXRE_1", omg_audio::hrtf::MAXRE_1, 0.775),
        ("hrtf::MAXRE_2", omg_audio::hrtf::MAXRE_2, 0.4),
        ("hrtf::MASTER", omg_audio::hrtf::MASTER, 1.4),
        ("hrtf::XFADE_S", omg_audio::hrtf::XFADE_S, 0.010),
        ("import::P_1E_MINUS_6", omg_audio::import::P_1E_MINUS_6, 1e-6),
        ("import::P_0_6", omg_audio::import::P_0_6, 0.6),
        ("import::P_32767_0", omg_audio::import::P_32767_0, 32767.0),
        ("level::REF_CLIP_RMS", omg_audio::level::REF_CLIP_RMS, 0.12),
        ("level::NOTHING", omg_audio::level::NOTHING, 1e-6),
        ("level::GATE", omg_audio::level::GATE, 0.0316),
        ("level::FAINTEST", omg_audio::level::FAINTEST, 1e-9),
        ("level::MAX_BOOST", omg_audio::level::MAX_BOOST, 24.0),
        ("level::EIGHTH", omg_audio::level::EIGHTH, 0.125),
        ("level::FOUR", omg_audio::level::FOUR, 4.0),
        ("level::SHORT_S", omg_audio::level::SHORT_S, 0.35),
        ("level::DOUBLE", omg_audio::level::DOUBLE, 2.0),
        ("level::QUARTER", omg_audio::level::QUARTER, 0.25),
        ("material::REF_THICKNESS_M", omg_audio::material::REF_THICKNESS_M, 0.15),
        ("material::THIN", omg_audio::material::THIN, 0.02),
        ("material::THIN_GAIN", omg_audio::material::THIN_GAIN, 2.0),
        ("material::LEAKY", omg_audio::material::LEAKY, 0.9),
        ("material::SPEED_OF_SOUND", omg_audio::material::SPEED_OF_SOUND, 343.0),
        ("material::MIN_DIST", omg_audio::material::MIN_DIST, 0.3),
        ("mesh::CELLS", omg_audio::mesh::CELLS, 10000.0),
        ("mesh::MAX_PRIM_EDGE", omg_audio::mesh::MAX_PRIM_EDGE, 4.0),
        ("mesh::POINT_LIKE", omg_audio::mesh::POINT_LIKE, 1e-6),
        ("mesh::SAME_SHARE", omg_audio::mesh::SAME_SHARE, 1e-4),
        ("mesh::SHORT_EDGE", omg_audio::mesh::SHORT_EDGE, 1e-4),
        ("mesh::DEGREES", omg_audio::mesh::DEGREES, 57.295_78),
        ("mesh::HALF_TURN", omg_audio::mesh::HALF_TURN, 180.0),
        ("output::AGC_TARGET", omg_audio::output::AGC_TARGET, 0.35),
        ("output::AGC_MAX_BOOST", omg_audio::output::AGC_MAX_BOOST, 1.0),
        ("output::AGC_MAX_CUT", omg_audio::output::AGC_MAX_CUT, 0.06),
        ("output::TTS_LOUD", omg_audio::output::TTS_LOUD, 0.35 * 3.2),
        ("output::TTS_FC_HI", omg_audio::output::TTS_FC_HI, 18000.0),
        ("output::TTS_FC_LO", omg_audio::output::TTS_FC_LO, 1400.0),
        ("output::TIN_THRESH", omg_audio::output::TIN_THRESH, 2.2),
        ("output::TIN_HZ", omg_audio::output::TIN_HZ, 5400.0),
        ("output::TIN_LEVEL", omg_audio::output::TIN_LEVEL, 0.006),
        ("output::HEAD_TAU", omg_audio::output::HEAD_TAU, 0.03),
        ("output::ATTACK_S", omg_audio::output::ATTACK_S, 0.008),
        ("output::RELEASE_S", omg_audio::output::RELEASE_S, 1.0),
        ("output::DOWN_S", omg_audio::output::DOWN_S, 0.05),
        ("output::UP_FAST_S", omg_audio::output::UP_FAST_S, 4.0),
        ("output::UP_SLOW_S", omg_audio::output::UP_SLOW_S, 45.0),
        ("output::TIRE_S", omg_audio::output::TIRE_S, 4.0),
        ("output::REST_S", omg_audio::output::REST_S, 6.0),
        ("output::FADE_S", omg_audio::output::FADE_S, 2.5),
        ("output::ENV_FLOOR", omg_audio::output::ENV_FLOOR, 0.0001),
        ("output::GAIN_FLOOR", omg_audio::output::GAIN_FLOOR, 1e-06),
        ("output::RING_FEED", omg_audio::output::RING_FEED, 0.0002),
        ("output::RING_FLOOR", omg_audio::output::RING_FLOOR, 0.0001),
        ("output::SHARP", omg_audio::output::SHARP, 0.08),
        ("params::ONE", omg_audio::params::ONE, 1.0),
        ("params::HALF", omg_audio::params::HALF, 0.5),
        ("params::DEFAULT_LEVEL", omg_audio::params::DEFAULT_LEVEL, 0.05),
        ("paths::OBSTRUCTED", omg_audio::paths::OBSTRUCTED, 0.25),
        ("paths::TOO_NEAR", omg_audio::paths::TOO_NEAR, 0.2),
        ("paths::CARRIES_NOTHING", omg_audio::paths::CARRIES_NOTHING, 1e-4),
        ("paths::SOURCE_SIDE", omg_audio::paths::SOURCE_SIDE, 0.65),
        ("paths::LISTENER_SIDE", omg_audio::paths::LISTENER_SIDE, 0.35),
        ("paths::MIN_DIHEDRAL", omg_audio::paths::MIN_DIHEDRAL, 40.0),
        ("paths::P_MINUS_1_0", omg_audio::paths::P_MINUS_1_0, -1.0),
        ("paths::P_1E_MINUS_6", omg_audio::paths::P_1E_MINUS_6, 1e-6),
        ("paths::P_1E_MINUS_4", omg_audio::paths::P_1E_MINUS_4, 1e-4),
        ("paths::P_0_01", omg_audio::paths::P_0_01, 0.01),
        ("paths::P_0_03", omg_audio::paths::P_0_03, 0.03),
        ("paths::P_0_05", omg_audio::paths::P_0_05, 0.05),
        ("paths::P_0_1", omg_audio::paths::P_0_1, 0.1),
        ("paths::P_0_5", omg_audio::paths::P_0_5, 0.5),
        ("paths::P_0_618034", omg_audio::paths::P_0_618034, 0.618034),
        ("paths::P_24_0", omg_audio::paths::P_24_0, 24.0),
        ("paths::P_60_0", omg_audio::paths::P_60_0, 60.0),
        ("paths::SHORT_RUN", omg_audio::paths::SHORT_RUN, 1.0),
        ("pool::RINGING", omg_audio::pool::RINGING, 1e-6),
        ("pool::INAUDIBLE", omg_audio::pool::INAUDIBLE, 1e-7),
        ("pool::NO_GAIN", omg_audio::pool::NO_GAIN, 1e-9),
        ("pool::TRANSMITTED", omg_audio::pool::TRANSMITTED, 2.0),
        ("pt::AT_POINT", omg_audio::pt::AT_POINT, 1e-4),
        ("pt::PARALLEL", omg_audio::pt::PARALLEL, 1e-9),
        ("pt::AWAY", omg_audio::pt::AWAY, -1e-6),
        ("pt::STRAIGHT_ON", omg_audio::pt::STRAIGHT_ON, 0.999),
        ("pt::CORNER_SLACK", omg_audio::pt::CORNER_SLACK, 1e-3),
        ("pt::STUCK", omg_audio::pt::STUCK, 1e-5),
        ("pt::SAME_DELAY", omg_audio::pt::SAME_DELAY, 2e-5),
        ("pt::SAME_DIR", omg_audio::pt::SAME_DIR, 0.99999),
        ("pt::THREE", omg_audio::pt::THREE, 3.0),
        ("pt::FIVE", omg_audio::pt::FIVE, 5.0),
        ("pt::GOLDEN", omg_audio::pt::GOLDEN, 0.61803398875),
        ("pt::JITTER", omg_audio::pt::JITTER, 0.02),
        ("pt_mesh::AUDIBLE_FLOOR", omg_audio::pt_mesh::AUDIBLE_FLOOR, 2e-5),
        ("pt_mesh::OPAQUE", omg_audio::pt_mesh::OPAQUE, 1e-6),
        ("pt_mesh::SLIGHT", omg_audio::pt_mesh::SLIGHT, 1e-4),
        ("pt_mesh::GRAZING", omg_audio::pt_mesh::GRAZING, 1e-9),
        ("pt_mesh::ON_SURFACE", omg_audio::pt_mesh::ON_SURFACE, 2e-2),
        ("pt_mesh::AT_BOUNCE", omg_audio::pt_mesh::AT_BOUNCE, 0.1),
        ("pt_mesh::AT_END", omg_audio::pt_mesh::AT_END, 0.05),
        ("pt_mesh::CONTINUES", omg_audio::pt_mesh::CONTINUES, 0.995),
        ("pt_mesh::TOO_FAR", omg_audio::pt_mesh::TOO_FAR, 200.0),
        ("pt_mesh::P_MINUS_1EMINUS_4", omg_audio::pt_mesh::P_MINUS_1EMINUS_4, -1e-4),
        ("pt_mesh::P_1E_MINUS_3", omg_audio::pt_mesh::P_1E_MINUS_3, 1e-3),
        ("rain::P_MINUS_1_0", omg_audio::rain::P_MINUS_1_0, -1.0),
        ("rain::P_MINUS_0_4", omg_audio::rain::P_MINUS_0_4, -0.4),
        ("rain::P_MINUS_0_25", omg_audio::rain::P_MINUS_0_25, -0.25),
        ("rain::P_MINUS_0_15", omg_audio::rain::P_MINUS_0_15, -0.15),
        ("rain::P_MINUS_0_1", omg_audio::rain::P_MINUS_0_1, -0.1),
        ("rain::P_1E_MINUS_9", omg_audio::rain::P_1E_MINUS_9, 1e-9),
        ("rain::P_1E_MINUS_6", omg_audio::rain::P_1E_MINUS_6, 1e-6),
        ("rain::P_1E_MINUS_4", omg_audio::rain::P_1E_MINUS_4, 1e-4),
        ("rain::P_0_004", omg_audio::rain::P_0_004, 0.004),
        ("rain::P_0_01", omg_audio::rain::P_0_01, 0.01),
        ("rain::P_0_012", omg_audio::rain::P_0_012, 0.012),
        ("rain::P_0_014", omg_audio::rain::P_0_014, 0.014),
        ("rain::P_0_02", omg_audio::rain::P_0_02, 0.02),
        ("rain::P_0_025", omg_audio::rain::P_0_025, 0.025),
        ("rain::P_0_03", omg_audio::rain::P_0_03, 0.03),
        ("rain::P_0_04", omg_audio::rain::P_0_04, 0.04),
        ("rain::P_0_045", omg_audio::rain::P_0_045, 0.045),
        ("rain::P_0_05", omg_audio::rain::P_0_05, 0.05),
        ("rain::P_0_15", omg_audio::rain::P_0_15, 0.15),
        ("rain::P_0_2", omg_audio::rain::P_0_2, 0.2),
        ("rain::P_0_22", omg_audio::rain::P_0_22, 0.22),
        ("rain::P_0_24", omg_audio::rain::P_0_24, 0.24),
        ("rain::P_0_25", omg_audio::rain::P_0_25, 0.25),
        ("rain::P_0_28", omg_audio::rain::P_0_28, 0.28),
        ("rain::P_0_3", omg_audio::rain::P_0_3, 0.3),
        ("rain::P_0_35", omg_audio::rain::P_0_35, 0.35),
        ("rain::P_0_4", omg_audio::rain::P_0_4, 0.4),
        ("rain::P_0_45", omg_audio::rain::P_0_45, 0.45),
        ("rain::P_0_5", omg_audio::rain::P_0_5, 0.5),
        ("rain::P_0_55", omg_audio::rain::P_0_55, 0.55),
        ("rain::P_0_6", omg_audio::rain::P_0_6, 0.6),
        ("rain::P_0_72", omg_audio::rain::P_0_72, 0.72),
        ("rain::P_0_8", omg_audio::rain::P_0_8, 0.8),
        ("rain::P_0_85", omg_audio::rain::P_0_85, 0.85),
        ("rain::P_0_9", omg_audio::rain::P_0_9, 0.9),
        ("rain::P_1_2", omg_audio::rain::P_1_2, 1.2),
        ("rain::P_1_5", omg_audio::rain::P_1_5, 1.5),
        ("rain::P_1_6", omg_audio::rain::P_1_6, 1.6),
        ("rain::P_2_5", omg_audio::rain::P_2_5, 2.5),
        ("rain::P_6_0", omg_audio::rain::P_6_0, 6.0),
        ("rain::P_260_0", omg_audio::rain::P_260_0, 260.0),
        ("rain::P_1400_0", omg_audio::rain::P_1400_0, 1400.0),
        ("rain::P_3000_0", omg_audio::rain::P_3000_0, 3000.0),
        ("rain::P_4200_0", omg_audio::rain::P_4200_0, 4200.0),
        ("rain::P_5200_0", omg_audio::rain::P_5200_0, 5200.0),
        ("renderer::POINT_GAIN", omg_audio::renderer::POINT_GAIN, 0.8),
        ("renderer::RETARGET_MS", omg_audio::renderer::RETARGET_MS, 6.0),
        ("renderer::LOW_SHELF_HZ", omg_audio::renderer::LOW_SHELF_HZ, 250.0),
        ("renderer::HIGH_SHELF_HZ", omg_audio::renderer::HIGH_SHELF_HZ, 2500.0),
        ("renderer::FIT_HZ", omg_audio::renderer::FIT_HZ, 800.0),
        ("renderer::FIT_LO", omg_audio::renderer::FIT_LO, 60.0),
        ("renderer::FIT_HI", omg_audio::renderer::FIT_HI, 2000.0),
        ("renderer::RATIO_MAX", omg_audio::renderer::RATIO_MAX, 4.0),
        ("renderer::IDLE_DELAY", omg_audio::renderer::IDLE_DELAY, 480.0),
        ("renderer::LINE_S", omg_audio::renderer::LINE_S, 0.7),
        ("renderer::TAP_TAU", omg_audio::renderer::TAP_TAU, 0.05),
        ("renderer::REMOTE_TAU", omg_audio::renderer::REMOTE_TAU, 0.1),
        ("renderer::LATE_TAU", omg_audio::renderer::LATE_TAU, 0.2),
        ("renderer::HEAD_TAU", omg_audio::renderer::HEAD_TAU, 0.03),
        ("renderer::REMOTE_LEVEL", omg_audio::renderer::REMOTE_LEVEL, 0.9),
        ("renderer::CORNER", omg_audio::renderer::CORNER, 2.25),
        ("renderer::MINUS_HALF", omg_audio::renderer::MINUS_HALF, -0.5),
        ("scene::FLAT", omg_audio::scene::FLAT, 1e-9),
        ("scene::AT_BOX", omg_audio::scene::AT_BOX, 1e-4),
        ("scene::MINUS_ONE", omg_audio::scene::MINUS_ONE, -1.0),
        ("signal::P_0_006", omg_audio::signal::P_0_006, 0.006),
        ("signal::P_0_03", omg_audio::signal::P_0_03, 0.03),
        ("signal::P_0_6", omg_audio::signal::P_0_6, 0.6),
        ("signal::P_0_9", omg_audio::signal::P_0_9, 0.9),
        ("signal::P_1_5", omg_audio::signal::P_1_5, 1.5),
        ("signal::P_2_2", omg_audio::signal::P_2_2, 2.2),
        ("signal::P_3_0", omg_audio::signal::P_3_0, 3.0),
        ("signal::P_4_0", omg_audio::signal::P_4_0, 4.0),
        ("signal::P_6_0", omg_audio::signal::P_6_0, 6.0),
        ("signal::P_8_0", omg_audio::signal::P_8_0, 8.0),
        ("smooth::MINUS_ONE", omg_audio::smooth::MINUS_ONE, -1.0),
        ("tracer::P_MINUS_60_0", omg_audio::tracer::P_MINUS_60_0, -60.0),
        ("tracer::P_1E_MINUS_7", omg_audio::tracer::P_1E_MINUS_7, 1e-7),
        ("tracer::BIN_DT", omg_audio::tracer::BIN_DT, 0.01),
        ("tracer::RECEIVER_RADIUS", omg_audio::tracer::RECEIVER_RADIUS, 0.5),
        ("tracer::MAX_TIME", omg_audio::tracer::MAX_TIME, 3.0),
        ("tracer::SKIMMING", omg_audio::tracer::SKIMMING, 1e-3),
        ("tracer::NOTHING", omg_audio::tracer::NOTHING, 1e-12),
        ("tracer::MIN_RT60", omg_audio::tracer::MIN_RT60, 0.1),
        ("tracer::MAX_RT60", omg_audio::tracer::MAX_RT60, 5.0),
        ("tracer::MAX_LEVEL", omg_audio::tracer::MAX_LEVEL, 0.7),
        ("tri::P_MINUS_1EMINUS_6", omg_audio::tri::P_MINUS_1EMINUS_6, -1e-6),
        ("tri::P_1E_MINUS_9", omg_audio::tri::P_1E_MINUS_9, 1e-9),
        ("tri::P_1E_MINUS_5", omg_audio::tri::P_1E_MINUS_5, 1e-5),
        ("tri::P_0_3333333333333333", omg_audio::tri::P_0_3333333333333333, 0.3333333333333333),
        ("tri::P_15_0", omg_audio::tri::P_15_0, 15.0),
        ("tri::P_16_0", omg_audio::tri::P_16_0, 16.0),
        ("walk::P_20_0", omg_audio::walk::P_20_0, 20.0),
        ("ambi::SQRT3", omg_audio::ambi::SQRT3, 1.732_050_8),
        ("ambi::TWO_THIRDS", omg_audio::ambi::TWO_THIRDS, 2.0 / 3.0),
        ("ambi::DEGREE", omg_audio::ambi::DEGREE, 1.0f32.to_radians()),
        ("bvh::LARGEST", omg_audio::bvh::LARGEST, f32::MAX),
        ("bvh::FAR_END", omg_audio::bvh::FAR_END, 1.0 - 1e-4),
        ("diffraction::TWO_PI", omg_audio::diffraction::TWO_PI, core::f32::consts::TAU),
        ("drops::TAU", omg_audio::drops::TAU, core::f32::consts::TAU),
        ("filter::MINUS_TAU", omg_audio::filter::MINUS_TAU, -core::f32::consts::TAU),
        ("hrtf::LOWEST", omg_audio::hrtf::LOWEST, f32::MIN),
        ("material::AIR_LOW", omg_audio::material::AIR_LOW, -1e-4),
        ("material::AIR_MID", omg_audio::material::AIR_MID, -5e-4),
        ("material::AIR_HIGH", omg_audio::material::AIR_HIGH, -3e-3),
        ("output::TAU", omg_audio::output::TAU, core::f32::consts::TAU),
        ("pt::PI", omg_audio::pt::PI, core::f32::consts::PI),
        ("scene::FARTHEST", omg_audio::scene::FARTHEST, f32::MAX),
        ("single::INFINITY", omg_audio::single::INFINITY, f32::INFINITY),
        ("tri::LOWEST", omg_audio::tri::LOWEST, f32::MIN),
        ("tri::OUTSIDE", omg_audio::tri::OUTSIDE, 1.0 + 1e-6),
    ];
    for (name, bits, value) in table {
        assert_eq!(bits, value.to_bits(), "{name}");
    }
}
