# hackrf-proxyd

Make a HackRF One a shared, network-attached OOK transceiver. The library holds
the signal work and every decision the daemon makes, with contracts that Verus
proves; `hrf` is the program around it.

## Layout

    src/ook/         IQ <-> Flipper-RAW timings, offline and streaming
    src/proflame/    the SIT Proflame 2 frame format, both directions
    src/wire.rs      the WebSocket protocol: types and validation
    src/engine/      the half-duplex arbiter, over a Transceiver trait
    src/server.rs    what is made of a client's request
    src/radio.rs     what is asked of the hardware, and what is made of its data
    src/bench/       the bench tools: demodulation, decoding, timings files,
                     typed frequencies
    src/float/       IEEE 754 doubles as bit patterns, for the arithmetic above
    src/text.rs      numbers in words
    app/             hrf: the command line, JSON, sockets, and the radio itself
    tests/           what the library does, on concrete values

The modules named `laws`, and those beside the code they speak of
(`ook::round_trip`, `ook::keypress`, `ook::streaming`, `ook::hearing`,
`ook::peaks`, `ook::statistics`, `ook::precision`), state what holds of every input.

## What is proved

- Timings survive being rendered and demodulated again, and so do Proflame
  frames, marks read short and spaces read long included. A frame that is
  repeated comes back as that many bursts.
- The streaming detector does not care how its input is cut into transfers, and
  slicing a recording at one threshold it finds the bursts that the offline
  demodulator finds. A burst's peak is that of its own samples.
- The arbiter never transmits over a running receiver, never leaves the
  transmitter running, and believes a radio that failed only once data arrives.
  Its clients know at any time what the radio is doing.
- What the demodulator writes to a file, the decoder and the transmitter read
  back as it was.
- A request that the wire layer can refuse never reaches the radio; what does
  can be rendered, and is no longer on air than allowed.
- Nothing overflows, and nothing panics.

Taken on trust are `str::to_ascii_lowercase`, and of `serde_json` how lists of
integers are written and read; each is named where it is called.

The library holds no floating-point numbers. Where double arithmetic decides
what comes out, it is done on bit patterns, with the rounding stated exactly.
