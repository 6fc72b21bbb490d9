# CrazyDog

The decisions of a quadruped guard robot, verified with Verus: what the robot does, how
it walks, what it makes of its sensors, and how it is driven by hand.

| Module | What it holds |
|--------|---------------|
| `binary64` | Double-precision numbers as bit patterns: exact values, correctly rounded sum, difference, product, quotient and square root, order, conversions |
| `behavior` | The behavior machine: idle, stand, trot, patrol, manual, pursuit, arrest, emergency stop |
| `gait` | The trot and the inverse kinematics of a leg |
| `lidar`, `camera`, `fusion` | Finding an intruder in point clouds and images, and following it over time |
| `teleop` | Keys to velocities and behavior commands |
| `siren` | The flashing light on the robot and its marker in the simulator |
| `clock`, `geometry`, `text` | Times, velocity commands, operator text |
| `platform` | What may be known of the platform's sine and arc functions |
| `decimals` | Every parameter is the double nearest to its decimal |

Each module with a `laws` part states there what holds of it as a whole: that an
emergency stop always works and commands no motion, that the siren sounds exactly during
an arrest, that a tilted robot is stopped and a stable one trots, that a pursuit stays
within its speed limits, that what is reported is sized like a person, that the feet of a
walking robot stay within reach, that its diagonals swap their places, feet and joint
angles after half a cycle, and more.

The arc functions and the sine are those of the platform's mathematics library; the
functions that need them take them as arguments.  `platform` holds what a law may ask of
them.  Times are nanoseconds on a monotonic
clock and are arguments too.

`app/` holds the ROS 2 nodes around the library, and `tests/` runs it against the
hardware's own arithmetic.
