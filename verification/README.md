# tank_battle

The rules of a small multiplayer tank game for the Ambient engine, each
proved against its contract.

- `src/arena.rs`: tanks and bullets; joining, steering and firing, putting a
  bullet in flight, contacts (bounces, knock-outs, scores) and respawns, with
  the laws that tie them together.
- `src/timing.rs`: cooldowns and intervals in milliseconds of game time.
- `src/scoring.rs`: kill and death counters and the score texts.
- `src/controls.rs`: the client's throttle rule.
- `src/sound.rs`: sound cues and their audio assets.
- `app/`: the Ambient server and client modules that feed engine events to the
  rules and carry out their answers.
- `tests/`: scenarios run against the compiled library.
